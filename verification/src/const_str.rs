//! String keys compared byte-lexicographically.
//!
//! [`ConstCmp`] wraps a `&'static str` and orders two wrappers by comparing
//! their UTF-8 bytes from index 0. When one string is a strict prefix of the
//! other, the shorter string orders first, so the relation is a strict total
//! order on byte sequences and two wrappers compare equal exactly when their
//! underlying bytes are equal.

use crate::lut::LutKey;
use core::cmp::Ordering;
use vstd::prelude::*;
use vstd::string::StringSliceAdditionalSpecFns;

verus! {

/// A string key: wraps one `&'static str` and compares byte-lexicographically.
#[derive(Clone, Copy, Debug, PartialEq, Eq, PartialOrd, Ord)]
pub struct ConstCmp(pub &'static str);

/// The string-keyed table: [`crate::lut::ConstSortedLut`] with [`ConstCmp`]
/// keys, so lookups accept a raw `&str`.
pub type ConstSortedLut<V, const N: usize> = crate::lut::ConstSortedLut<ConstCmp, V, N>;

/// A string-keyed builder pair: [`crate::lut::LutEntry`] with [`ConstCmp`] keys.
pub type LutEntry<V> = crate::lut::LutEntry<ConstCmp, V>;

/// Strict lexicographic order on byte sequences: `a` comes before `b` when,
/// at the first index where they differ, `a` holds the smaller byte, or when
/// `a` is a strict prefix of `b`.
pub open spec fn bytes_lt(a: Seq<u8>, b: Seq<u8>) -> bool
    decreases a.len(),
{
    if a.len() == 0 {
        b.len() > 0
    } else if b.len() == 0 {
        false
    } else if a[0] < b[0] {
        true
    } else if b[0] < a[0] {
        false
    } else {
        bytes_lt(a.drop_first(), b.drop_first())
    }
}

pub proof fn lemma_bytes_lt_asymmetric(a: Seq<u8>, b: Seq<u8>)
    requires
        bytes_lt(a, b),
    ensures
        !bytes_lt(b, a),
    decreases a.len(),
{
    if a.len() > 0 && b.len() > 0 && a[0] == b[0] {
        lemma_bytes_lt_asymmetric(a.drop_first(), b.drop_first());
    }
}

pub proof fn lemma_bytes_lt_irreflexive(a: Seq<u8>)
    ensures
        !bytes_lt(a, a),
{
    if bytes_lt(a, a) {
        lemma_bytes_lt_asymmetric(a, a);
    }
}

pub proof fn lemma_bytes_lt_transitive(a: Seq<u8>, b: Seq<u8>, c: Seq<u8>)
    requires
        bytes_lt(a, b),
        bytes_lt(b, c),
    ensures
        bytes_lt(a, c),
    decreases a.len(),
{
    if a.len() > 0 && b.len() > 0 && c.len() > 0 && a[0] == b[0] && b[0] == c[0] {
        lemma_bytes_lt_transitive(a.drop_first(), b.drop_first(), c.drop_first());
    }
}

/// Any two byte sequences are related: one is smaller, or they are equal.
pub proof fn lemma_bytes_lt_trichotomy(a: Seq<u8>, b: Seq<u8>)
    ensures
        bytes_lt(a, b) || bytes_lt(b, a) || a == b,
    decreases a.len(),
{
    if a.len() == 0 {
        if b.len() == 0 {
            assert(a =~= b);
        }
    } else if b.len() == 0 {
    } else if a[0] == b[0] {
        lemma_bytes_lt_trichotomy(a.drop_first(), b.drop_first());
        if a.drop_first() == b.drop_first() {
            assert(a =~= b) by {
                assert(a.drop_first().len() == b.drop_first().len());
                assert(a.len() == b.len());
                assert forall|i: int| 0 <= i < a.len() implies a[i] == b[i] by {
                    if i > 0 {
                        assert(a[i] == a.drop_first()[i - 1]);
                        assert(b[i] == b.drop_first()[i - 1]);
                    }
                }
            }
        }
    }
}

/// Three-way byte-lexicographic comparison of two byte slices, consistent
/// with [`bytes_lt`].
fn cmp_bytes(l: &[u8], r: &[u8]) -> (o: Ordering)
    ensures
        (o == Ordering::Less <==> bytes_lt(l@, r@)),
        (o == Ordering::Greater <==> bytes_lt(r@, l@)),
        (o == Ordering::Equal <==> l@ == r@),
{
    let mut i: usize = 0;
    while i < l.len()
        invariant
            i <= l@.len(),
            i <= r@.len(),
            forall|k: int| 0 <= k < i ==> l@[k] == r@[k],
        decreases l@.len() - i,
    {
        if i >= r.len() {
            proof {
                lemma_bytes_lt_skip(r@, l@, i as int);
                lemma_bytes_lt_skip(l@, r@, i as int);
                assert(r@.skip(i as int).len() == 0);
                assert(l@.skip(i as int).len() > 0);
                lemma_bytes_lt_asymmetric(r@, l@);
                if l@ == r@ {
                    lemma_bytes_lt_irreflexive(l@);
                }
            }
            return Ordering::Greater;
        }
        let x = l[i];
        let y = r[i];
        if x < y {
            proof {
                lemma_bytes_lt_skip(l@, r@, i as int);
                lemma_bytes_lt_skip(r@, l@, i as int);
                assert(l@.skip(i as int)[0] == x);
                assert(r@.skip(i as int)[0] == y);
            }
            return Ordering::Less;
        }
        if y < x {
            proof {
                lemma_bytes_lt_skip(l@, r@, i as int);
                lemma_bytes_lt_skip(r@, l@, i as int);
                assert(l@.skip(i as int)[0] == x);
                assert(r@.skip(i as int)[0] == y);
            }
            return Ordering::Greater;
        }
        i += 1;
    }
    if i < r.len() {
        proof {
            lemma_bytes_lt_skip(l@, r@, i as int);
            lemma_bytes_lt_skip(r@, l@, i as int);
            assert(l@.skip(i as int).len() == 0);
            assert(r@.skip(i as int).len() > 0);
            lemma_bytes_lt_asymmetric(l@, r@);
            if l@ == r@ {
                lemma_bytes_lt_irreflexive(l@);
            }
        }
        Ordering::Less
    } else {
        proof {
            assert(l@ =~= r@);
            lemma_bytes_lt_irreflexive(l@);
        }
        Ordering::Equal
    }
}

impl ConstCmp {
    /// Three-way comparison of the wrapped strings' UTF-8 bytes: at the first
    /// differing index the smaller byte orders first, and a strict prefix
    /// orders before any longer string.
    pub fn const_cmp(&self, rhs: &Self) -> (o: Ordering)
        ensures
            (o == Ordering::Less <==> bytes_lt(self.0.spec_bytes(), rhs.0.spec_bytes())),
            (o == Ordering::Greater <==> bytes_lt(rhs.0.spec_bytes(), self.0.spec_bytes())),
            (o == Ordering::Equal <==> self.0.spec_bytes() == rhs.0.spec_bytes()),
    {
        cmp_bytes(self.0.as_bytes(), rhs.0.as_bytes())
    }
}

/// View-based lookup law: a raw string stands for exactly the model of the
/// wrapper built from it, so a table answers a lookup by `s` and a lookup by
/// `ConstCmp(s)` with the same result.
pub proof fn lemma_query_is_wrapper_model(s: &'static str)
    ensures
        <ConstCmp as LutKey>::query_model(s) == ConstCmp(s).model(),
{
}

impl LutKey for ConstCmp {
    type M = Seq<u8>;

    type Q = str;

    open spec fn model(self) -> Seq<u8> {
        self.0.spec_bytes()
    }

    open spec fn query_model(q: &str) -> Seq<u8> {
        q.spec_bytes()
    }

    open spec fn model_lt(a: Seq<u8>, b: Seq<u8>) -> bool {
        bytes_lt(a, b)
    }

    proof fn lemma_model_lt_asymmetric(a: Seq<u8>, b: Seq<u8>) {
        lemma_bytes_lt_asymmetric(a, b);
    }

    proof fn lemma_model_lt_transitive(a: Seq<u8>, b: Seq<u8>, c: Seq<u8>) {
        lemma_bytes_lt_transitive(a, b, c);
    }

    proof fn lemma_model_lt_trichotomy(a: Seq<u8>, b: Seq<u8>) {
        lemma_bytes_lt_trichotomy(a, b);
    }

    fn key_cmp(&self, rhs: &Self) -> (o: Ordering) {
        self.const_cmp(rhs)
    }

    fn query_cmp(&self, q: &str) -> (o: Ordering) {
        cmp_bytes(self.0.as_bytes(), q.as_bytes())
    }
}

/// Dropping a common prefix does not change how two byte sequences compare.
pub proof fn lemma_bytes_lt_skip(a: Seq<u8>, b: Seq<u8>, i: int)
    requires
        0 <= i <= a.len(),
        i <= b.len(),
        forall|k: int| 0 <= k < i ==> a[k] == b[k],
    ensures
        bytes_lt(a, b) == bytes_lt(a.skip(i), b.skip(i)),
    decreases i,
{
    if i == 0 {
        assert(a.skip(0) =~= a);
        assert(b.skip(0) =~= b);
    } else {
        lemma_bytes_lt_skip(a, b, i - 1);
        assert(a.skip(i - 1)[0] == a[i - 1]);
        assert(b.skip(i - 1)[0] == b[i - 1]);
        assert(a.skip(i - 1).drop_first() =~= a.skip(i));
        assert(b.skip(i - 1).drop_first() =~= b.skip(i));
    }
}

} // verus!
