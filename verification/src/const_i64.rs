//! Signed 64-bit keys in natural numeric order.
//!
//! The comparator wrapper for every primitive width has this one shape; the
//! unsigned exemplar lives in [`crate::const_u64`].

use crate::lut::LutKey;
use core::cmp::Ordering;
use vstd::prelude::*;

verus! {

/// A numeric key: wraps one `i64`, ordered by the natural numeric order.
#[derive(Clone, Copy, Debug, PartialEq, Eq, PartialOrd, Ord)]
pub struct ConstCmp(pub i64);

/// The `i64`-keyed table: [`crate::lut::ConstSortedLut`] with [`ConstCmp`]
/// keys, so lookups accept a raw `&i64`.
pub type ConstSortedLut<V, const N: usize> = crate::lut::ConstSortedLut<ConstCmp, V, N>;

/// An `i64`-keyed builder pair: [`crate::lut::LutEntry`] with [`ConstCmp`] keys.
pub type LutEntry<V> = crate::lut::LutEntry<ConstCmp, V>;

impl ConstCmp {
    /// Three-way comparison of the wrapped numbers in natural numeric order.
    pub fn const_cmp(&self, rhs: &Self) -> (o: Ordering)
        ensures
            (o == Ordering::Less <==> self.0 < rhs.0),
            (o == Ordering::Greater <==> self.0 > rhs.0),
            (o == Ordering::Equal <==> self.0 == rhs.0),
    {
        if self.0 == rhs.0 {
            Ordering::Equal
        } else if self.0 > rhs.0 {
            Ordering::Greater
        } else {
            Ordering::Less
        }
    }
}

/// View-based lookup law: a raw number stands for exactly the model of the
/// wrapper built from it, so a table answers a lookup by `q` and a lookup by
/// `ConstCmp(q)` with the same result.
pub proof fn lemma_query_is_wrapper_model(q: i64)
    ensures
        <ConstCmp as LutKey>::query_model(&q) == ConstCmp(q).model(),
{
}

impl LutKey for ConstCmp {
    type M = i64;

    type Q = i64;

    open spec fn model(self) -> i64 {
        self.0
    }

    open spec fn query_model(q: &i64) -> i64 {
        *q
    }

    open spec fn model_lt(a: i64, b: i64) -> bool {
        a < b
    }

    proof fn lemma_model_lt_asymmetric(a: i64, b: i64) {
    }

    proof fn lemma_model_lt_transitive(a: i64, b: i64, c: i64) {
    }

    proof fn lemma_model_lt_trichotomy(a: i64, b: i64) {
    }

    fn key_cmp(&self, rhs: &Self) -> (o: Ordering) {
        self.const_cmp(rhs)
    }

    fn query_cmp(&self, q: &i64) -> (o: Ordering) {
        if self.0 == *q {
            Ordering::Equal
        } else if self.0 > *q {
            Ordering::Greater
        } else {
            Ordering::Less
        }
    }
}

} // verus!
