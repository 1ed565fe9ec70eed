//! Unsigned 64-bit keys in natural numeric order.
//!
//! The comparator wrapper for every primitive width has this one shape; the
//! signed exemplar lives in [`crate::const_i64`].

use crate::lut::LutKey;
use core::cmp::Ordering;
use vstd::prelude::*;

verus! {

/// A numeric key: wraps one `u64`, ordered by the natural numeric order.
#[derive(Clone, Copy, Debug, PartialEq, Eq, PartialOrd, Ord)]
pub struct ConstCmp(pub u64);

/// The `u64`-keyed table: [`crate::lut::ConstSortedLut`] with [`ConstCmp`]
/// keys, so lookups accept a raw `&u64`.
pub type ConstSortedLut<V, const N: usize> = crate::lut::ConstSortedLut<ConstCmp, V, N>;

/// A `u64`-keyed builder pair: [`crate::lut::LutEntry`] with [`ConstCmp`] keys.
pub type LutEntry<V> = crate::lut::LutEntry<ConstCmp, V>;

impl ConstCmp {
    /// Three-way comparison of the wrapped numbers in natural numeric order.
    pub fn const_cmp(&self, rhs: &Self) -> (o: Ordering)
        ensures
            (o == Ordering::Less <==> self.0 < rhs.0),
            (o == Ordering::Greater <==> self.0 > rhs.0),
            (o == Ordering::Equal <==> self.0 == rhs.0),
    {
        if self.0 == rhs.0 {
            Ordering::Equal
        } else if self.0 > rhs.0 {
            Ordering::Greater
        } else {
            Ordering::Less
        }
    }
}

/// View-based lookup law: a raw number stands for exactly the model of the
/// wrapper built from it, so a table answers a lookup by `q` and a lookup by
/// `ConstCmp(q)` with the same result.
pub proof fn lemma_query_is_wrapper_model(q: u64)
    ensures
        <ConstCmp as LutKey>::query_model(&q) == ConstCmp(q).model(),
{
}

impl LutKey for ConstCmp {
    type M = u64;

    type Q = u64;

    open spec fn model(self) -> u64 {
        self.0
    }

    open spec fn query_model(q: &u64) -> u64 {
        *q
    }

    open spec fn model_lt(a: u64, b: u64) -> bool {
        a < b
    }

    proof fn lemma_model_lt_asymmetric(a: u64, b: u64) {
    }

    proof fn lemma_model_lt_transitive(a: u64, b: u64, c: u64) {
    }

    proof fn lemma_model_lt_trichotomy(a: u64, b: u64) {
    }

    fn key_cmp(&self, rhs: &Self) -> (o: Ordering) {
        self.const_cmp(rhs)
    }

    fn query_cmp(&self, q: &u64) -> (o: Ordering) {
        if self.0 == *q {
            Ordering::Equal
        } else if self.0 > *q {
            Ordering::Greater
        } else {
            Ordering::Less
        }
    }
}

} // verus!
