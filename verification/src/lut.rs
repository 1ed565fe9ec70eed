//! The generic sorted lookup table.
//!
//! [`ConstSortedLut`] holds `N` keys and `N` values in two index-aligned
//! arrays. It is built once, by [`ConstSortedLut::new`] or
//! [`ConstSortedLut::try_new`], from an array of [`LutEntry`] pairs in any
//! order: the builder sorts the pairs by key with an adjacent-exchange sort
//! and refuses the build when two keys compare equal. From then on the keys
//! are strictly ascending and the table is never mutated; [`get`] and
//! [`get_key`] look a key up by binary search.
//!
//! The key type is anything that implements [`LutKey`]: a copyable wrapper
//! with a mathematical model, a strict total order on the models, and
//! three-way comparisons against another wrapper or against the raw query
//! type the wrapper is a view of.
//!
//! [`get`]: ConstSortedLut::get
//! [`get_key`]: ConstSortedLut::get_key

use core::cmp::Ordering;
use vstd::prelude::*;

verus! {

broadcast use vstd::array::group_array_axioms;

/// A key usable by [`ConstSortedLut`].
///
/// `M` is the mathematical model of a key (for a string key its byte
/// sequence, for a numeric key the number itself) and `model_lt` a strict
/// total order on models. `Q` is the raw type a caller may query by without
/// constructing a wrapper; `query_model` says which model such a raw value
/// stands for.
pub trait LutKey: Copy + Sized {
    /// Mathematical model of a key.
    type M;

    /// Raw view type accepted by lookups.
    type Q: ?Sized;

    /// The model of this key.
    spec fn model(self) -> Self::M;

    /// The model a raw query value stands for.
    spec fn query_model(q: &Self::Q) -> Self::M;

    /// Strict order on key models.
    spec fn model_lt(a: Self::M, b: Self::M) -> bool;

    proof fn lemma_model_lt_asymmetric(a: Self::M, b: Self::M)
        requires
            Self::model_lt(a, b),
        ensures
            !Self::model_lt(b, a),
    ;

    proof fn lemma_model_lt_transitive(a: Self::M, b: Self::M, c: Self::M)
        requires
            Self::model_lt(a, b),
            Self::model_lt(b, c),
        ensures
            Self::model_lt(a, c),
    ;

    proof fn lemma_model_lt_trichotomy(a: Self::M, b: Self::M)
        ensures
            Self::model_lt(a, b) || Self::model_lt(b, a) || a == b,
    ;

    /// Three-way comparison of two keys, consistent with the model order.
    fn key_cmp(&self, rhs: &Self) -> (o: Ordering)
        ensures
            (o == Ordering::Less <==> Self::model_lt(self.model(), rhs.model())),
            (o == Ordering::Greater <==> Self::model_lt(rhs.model(), self.model())),
            (o == Ordering::Equal <==> self.model() == rhs.model()),
    ;

    /// Three-way comparison of a key against a raw query value.
    fn query_cmp(&self, q: &Self::Q) -> (o: Ordering)
        ensures
            (o == Ordering::Less <==> Self::model_lt(self.model(), Self::query_model(q))),
            (o == Ordering::Greater <==> Self::model_lt(Self::query_model(q), self.model())),
            (o == Ordering::Equal <==> self.model() == Self::query_model(q)),
    ;
}

pub proof fn lemma_model_lt_irreflexive<K: LutKey>(a: K::M)
    ensures
        !K::model_lt(a, a),
{
    if K::model_lt(a, a) {
        K::lemma_model_lt_asymmetric(a, a);
    }
}

/// One key/value pair handed to the builder.
#[derive(Clone, Copy, Debug, PartialEq, Eq)]
pub struct LutEntry<K, V> {
    pub key: K,
    pub value: V,
}

/// The models of a pair sequence's keys, in order.
pub open spec fn entry_models<K: LutKey, V>(s: Seq<LutEntry<K, V>>) -> Seq<K::M> {
    s.map_values(|e: LutEntry<K, V>| e.key.model())
}

/// A pair sequence reduced to (key model, value) pairs, in order.
pub open spec fn entry_pairs<K: LutKey, V>(s: Seq<LutEntry<K, V>>) -> Seq<(K::M, V)> {
    s.map_values(|e: LutEntry<K, V>| (e.key.model(), e.value))
}

/// Models strictly ascending over every pair of positions.
pub open spec fn models_sorted<K: LutKey>(ms: Seq<K::M>) -> bool {
    forall|i: int, j: int|
        0 <= i < j < ms.len() ==> #[trigger] K::model_lt(ms[i], ms[j])
}

/// Every pair of positions whose greater member is at or past `from` is
/// strictly ascending: the suffix is sorted and dominates the prefix.
spec fn sorted_from<K: LutKey>(ms: Seq<K::M>, from: int) -> bool {
    forall|i: int, j: int|
        0 <= i < j < ms.len() && from <= j ==> #[trigger] K::model_lt(ms[i], ms[j])
}

/// Exchanging two adjacent elements leaves a sequence's multiset unchanged.
proof fn lemma_swap_multiset<T>(s: Seq<T>, j: int)
    requires
        0 <= j,
        j + 1 < s.len(),
    ensures
        s.update(j, s[j + 1]).update(j + 1, s[j]).to_multiset() == s.to_multiset(),
{
    broadcast use vstd::seq_lib::to_multiset_update;
    broadcast use vstd::seq_lib::group_to_multiset_ensures;
    broadcast use vstd::multiset::group_multiset_axioms;

    let s1 = s.update(j, s[j + 1]);
    let s2 = s1.update(j + 1, s[j]);
    assert(s.contains(s[j]));
    assert(s1[j + 1] == s[j + 1]);
    assert(s2.to_multiset() =~= s.to_multiset());
}

/// Sequences with equal multisets agree on whether they repeat an element.
proof fn lemma_multiset_no_dup_transfer<T>(s1: Seq<T>, s2: Seq<T>)
    requires
        s1.to_multiset() == s2.to_multiset(),
        s1.no_duplicates(),
    ensures
        s2.no_duplicates(),
{
    s1.lemma_multiset_has_no_duplicates();
    s2.lemma_multiset_has_no_duplicates_conv();
}

/// Strictly ascending models are pairwise distinct.
proof fn lemma_sorted_no_duplicates<K: LutKey>(ms: Seq<K::M>)
    requires
        models_sorted::<K>(ms),
    ensures
        ms.no_duplicates(),
{
    assert forall|i: int, j: int|
        0 <= i < ms.len() && 0 <= j < ms.len() && i != j implies ms[i] != ms[j] by {
        if ms[i] == ms[j] {
            if i < j {
                assert(K::model_lt(ms[i], ms[j]));
            } else {
                assert(K::model_lt(ms[j], ms[i]));
            }
            lemma_model_lt_irreflexive::<K>(ms[i]);
        }
    }
}

/// A chain of adjacent strict comparisons below `k` orders any two positions
/// in that range.
proof fn lemma_adjacent_chain<K: LutKey>(ms: Seq<K::M>, k: int, p: int, q: int)
    requires
        0 <= k < ms.len(),
        forall|t: int| 0 <= t < k ==> #[trigger] K::model_lt(ms[t], ms[t + 1]),
        0 <= p < q <= k,
    ensures
        K::model_lt(ms[p], ms[q]),
    decreases q - p,
{
    if p + 1 == q {
        assert(K::model_lt(ms[p], ms[p + 1]));
    } else {
        lemma_adjacent_chain::<K>(ms, k, p, q - 1);
        assert(K::model_lt(ms[q - 1], ms[q - 1 + 1]));
        K::lemma_model_lt_transitive(ms[p], ms[q - 1], ms[q]);
    }
}

/// Exchanging the out-of-order adjacent pair `j`, `j + 1`, both below
/// `bound`, keeps the model and pair multisets and keeps the suffix from
/// `bound` sorted and dominating.
proof fn lemma_swap_maintains<K: LutKey, V>(
    s0: Seq<LutEntry<K, V>>,
    s1: Seq<LutEntry<K, V>>,
    j: int,
    bound: int,
)
    requires
        0 <= j,
        j + 1 < bound <= s0.len(),
        s1 == s0.update(j, s0[j + 1]).update(j + 1, s0[j]),
        sorted_from::<K>(entry_models(s0), bound),
    ensures
        s1.len() == s0.len(),
        entry_models(s1).to_multiset() == entry_models(s0).to_multiset(),
        entry_pairs(s1).to_multiset() == entry_pairs(s0).to_multiset(),
        sorted_from::<K>(entry_models(s1), bound),
        entry_models(s1) == entry_models(s0).update(j, entry_models(s0)[j + 1]).update(
            j + 1,
            entry_models(s0)[j],
        ),
{
    let m0 = entry_models(s0);
    let m1 = entry_models(s1);
    let p0 = entry_pairs(s0);
    let p1 = entry_pairs(s1);
    assert(m1 =~= m0.update(j, m0[j + 1]).update(j + 1, m0[j]));
    assert(p1 =~= p0.update(j, p0[j + 1]).update(j + 1, p0[j]));
    lemma_swap_multiset(m0, j);
    lemma_swap_multiset(p0, j);
    assert forall|x: int, y: int|
        0 <= x < y < m1.len() && bound <= y implies #[trigger] K::model_lt(m1[x], m1[y]) by {
        assert(m1[y] == m0[y]);
        if x == j {
            assert(K::model_lt(m0[j + 1], m0[y]));
        } else if x == j + 1 {
            assert(K::model_lt(m0[j], m0[y]));
        } else {
            assert(K::model_lt(m0[x], m0[y]));
        }
    }
}

/// The immutable table: `N` keys sorted strictly ascending by model, and the
/// `N` values aligned with them by index.
pub struct ConstSortedLut<K: LutKey, V, const N: usize> {
    keys: [K; N],
    values: [V; N],
}

impl<K: LutKey, V, const N: usize> ConstSortedLut<K, V, N> {
    /// The models of the stored keys, by index.
    pub closed spec fn key_models(self) -> Seq<K::M> {
        self.keys@.map_values(|k: K| k.model())
    }

    /// The stored values, by index.
    pub closed spec fn vals(self) -> Seq<V> {
        self.values@
    }

    /// The table's contents as (key model, value) pairs, by index.
    pub open spec fn pairs(self) -> Seq<(K::M, V)> {
        Seq::new(self.key_models().len(), |i: int| (self.key_models()[i], self.vals()[i]))
    }

    #[verifier::type_invariant]
    spec fn wf(self) -> bool {
        models_sorted::<K>(self.key_models())
    }

    /// Whether some stored key has model `m`.
    pub open spec fn has_model(self, m: K::M) -> bool {
        exists|i: int| 0 <= i < self.key_models().len() && self.key_models()[i] == m
    }

    /// The index of the stored key with model `m`, when there is one.
    pub open spec fn model_index(self, m: K::M) -> int {
        choose|i: int| 0 <= i < self.key_models().len() && self.key_models()[i] == m
    }

    /// What a lookup by model `m` returns.
    pub open spec fn spec_get(self, m: K::M) -> Option<V> {
        if self.has_model(m) {
            Some(self.vals()[self.model_index(m)])
        } else {
            None
        }
    }
}

impl<K: LutKey, V: Copy, const N: usize> ConstSortedLut<K, V, N> {
    /// Builds the table from `entries`, in any order: sorts the pairs by key
    /// with an adjacent-exchange sort and refuses the build — returning
    /// `None` — exactly when two keys have equal models. On success the keys
    /// are strictly ascending and the (key model, value) pairs are those of
    /// the input. The capacity `N` must be at least 1.
    pub fn try_new(entries: [LutEntry<K, V>; N]) -> (r: Option<Self>)
        requires
            N >= 1,
        ensures
            (r is Some <==> entry_models(entries@).no_duplicates()),
            (match r {
                Some(t) => {
                    &&& t.key_models().len() == N
                    &&& t.vals().len() == N
                    &&& models_sorted::<K>(t.key_models())
                    &&& t.key_models().no_duplicates()
                    &&& t.key_models().to_multiset() == entry_models(entries@).to_multiset()
                    &&& t.pairs().to_multiset() == entry_pairs(entries@).to_multiset()
                },
                None => !entry_models(entries@).no_duplicates(),
            }),
    {
        let mut arr = entries;
        let mut i: usize = 0;
        while i < N - 1
            invariant
                N >= 1,
                i <= N - 1,
                arr@.len() == N,
                entries@.len() == N,
                entry_models(arr@).to_multiset() == entry_models(entries@).to_multiset(),
                entry_pairs(arr@).to_multiset() == entry_pairs(entries@).to_multiset(),
                sorted_from::<K>(entry_models(arr@), N - i),
            ensures
                arr@.len() == N,
                entries@.len() == N,
                entry_models(arr@).to_multiset() == entry_models(entries@).to_multiset(),
                entry_pairs(arr@).to_multiset() == entry_pairs(entries@).to_multiset(),
                models_sorted::<K>(entry_models(arr@)),
            decreases N - i,
        {
            let mut swapped = false;
            let mut j: usize = 0;
            while j < N - i - 1
                invariant
                    N >= 1,
                    i < N - 1,
                    j <= N - i - 1,
                    arr@.len() == N,
                    entries@.len() == N,
                    entry_models(arr@).to_multiset() == entry_models(entries@).to_multiset(),
                    entry_pairs(arr@).to_multiset() == entry_pairs(entries@).to_multiset(),
                    sorted_from::<K>(entry_models(arr@), N - i),
                    forall|p: int|
                        0 <= p < j ==> #[trigger] K::model_lt(
                            entry_models(arr@)[p],
                            entry_models(arr@)[j as int],
                        ),
                    !swapped ==> forall|p: int|
                        0 <= p < j ==> #[trigger] K::model_lt(
                            entry_models(arr@)[p],
                            entry_models(arr@)[p + 1],
                        ),
                decreases N - i - 1 - j,
            {
                let a = arr[j];
                let b = arr[j + 1];
                let ghost s0 = arr@;
                proof {
                    assert(a.key.model() == entry_models(s0)[j as int]);
                    assert(b.key.model() == entry_models(s0)[j as int + 1]);
                }
                match a.key.key_cmp(&b.key) {
                    Ordering::Equal => {
                        proof {
                            let msc = entry_models(arr@);
                            assert(msc[j as int] == msc[j as int + 1]);
                            assert(!msc.no_duplicates());
                            if entry_models(entries@).no_duplicates() {
                                lemma_multiset_no_dup_transfer(entry_models(entries@), msc);
                            }
                        }
                        return None;
                    },
                    Ordering::Greater => {
                        arr[j] = b;
                        arr[j + 1] = a;
                        swapped = true;
                        proof {
                            lemma_swap_maintains::<K, V>(s0, arr@, j as int, N - i as int);
                            let msn = entry_models(arr@);
                            assert forall|p: int| 0 <= p < j + 1 implies #[trigger] K::model_lt(
                                msn[p],
                                msn[j as int + 1],
                            ) by {
                                if p < j {
                                    assert(K::model_lt(entry_models(s0)[p], entry_models(s0)[j as int]));
                                    assert(msn[p] == entry_models(s0)[p]);
                                }
                            }
                        }
                    },
                    Ordering::Less => {
                        proof {
                            let msc = entry_models(arr@);
                            assert forall|p: int| 0 <= p < j + 1 implies #[trigger] K::model_lt(
                                msc[p],
                                msc[j as int + 1],
                            ) by {
                                if p < j {
                                    K::lemma_model_lt_transitive(
                                        msc[p],
                                        msc[j as int],
                                        msc[j as int + 1],
                                    );
                                }
                            }
                        }
                    },
                }
                j += 1;
            }
            proof {
                let msc = entry_models(arr@);
                assert forall|x: int, y: int|
                    0 <= x < y < msc.len() && N - i - 1 <= y implies #[trigger] K::model_lt(
                    msc[x],
                    msc[y],
                ) by {
                    if y == N - i - 1 {
                        assert(K::model_lt(msc[x], msc[j as int]));
                    }
                }
                assert(sorted_from::<K>(msc, N - i - 1));
            }
            if !swapped {
                proof {
                    let msc = entry_models(arr@);
                    assert forall|x: int, y: int|
                        0 <= x < y < msc.len() implies #[trigger] K::model_lt(msc[x], msc[y]) by {
                        if y < N - i - 1 {
                            lemma_adjacent_chain::<K>(msc, j as int, x, y);
                        }
                    }
                }
                break ;
            }
            i += 1;
        }
        // Pairs are sorted; lay them out as the two parallel arrays.
        let mut keys: [K; N] = vstd::array::array_fill_for_copy_types(arr[0].key);
        let mut values: [V; N] = vstd::array::array_fill_for_copy_types(arr[0].value);
        let mut idx: usize = 0;
        while idx < N
            invariant
                idx <= N,
                arr@.len() == N,
                entries@.len() == N,
                keys@.len() == N,
                values@.len() == N,
                entry_models(arr@).to_multiset() == entry_models(entries@).to_multiset(),
                entry_pairs(arr@).to_multiset() == entry_pairs(entries@).to_multiset(),
                models_sorted::<K>(entry_models(arr@)),
                forall|p: int| 0 <= p < idx ==> keys@[p] == #[trigger] arr@[p].key,
                forall|p: int| 0 <= p < idx ==> values@[p] == #[trigger] arr@[p].value,
            decreases N - idx,
        {
            keys[idx] = arr[idx].key;
            values[idx] = arr[idx].value;
            idx += 1;
        }
        proof {
            assert(keys@.map_values(|k: K| k.model()) =~= entry_models(arr@));
        }
        let table = Self { keys, values };
        proof {
            assert(table.key_models() == entry_models(arr@));
            assert(table.pairs() =~= entry_pairs(arr@));
            lemma_sorted_no_duplicates::<K>(entry_models(arr@));
            lemma_multiset_no_dup_transfer(entry_models(arr@), entry_models(entries@));
        }
        Some(table)
    }

    /// Builds the table from `entries`, whose keys must have pairwise
    /// distinct models; sorts them and lays the result out as two aligned
    /// arrays. The capacity `N` must be at least 1.
    pub fn new(entries: [LutEntry<K, V>; N]) -> (table: Self)
        requires
            N >= 1,
            entry_models(entries@).no_duplicates(),
        ensures
            table.key_models().len() == N,
            table.vals().len() == N,
            models_sorted::<K>(table.key_models()),
            table.key_models().no_duplicates(),
            table.key_models().to_multiset() == entry_models(entries@).to_multiset(),
            table.pairs().to_multiset() == entry_pairs(entries@).to_multiset(),
    {
        match Self::try_new(entries) {
            Some(table) => table,
            None => vstd::pervasive::unreached(),
        }
    }

    /// Binary search by the raw query type: the value aligned with the key
    /// whose model matches the query's, or `None` when no stored key matches.
    pub fn get<'a>(&'a self, key: &K::Q) -> (r: Option<&'a V>)
        ensures
            (match r {
                Some(v) => self.spec_get(K::query_model(key)) == Some(*v),
                None => self.spec_get(K::query_model(key)) is None,
            }),
    {
        proof {
            use_type_invariant(self);
        }
        let ghost qm = K::query_model(key);
        let ghost ms = self.key_models();
        let mut lo: usize = 0;
        let mut hi: usize = N;
        while lo < hi
            invariant
                lo <= hi <= N,
                qm == K::query_model(key),
                ms == self.key_models(),
                ms.len() == N,
                models_sorted::<K>(ms),
                forall|t: int| 0 <= t < lo ==> K::model_lt(#[trigger] ms[t], qm),
                forall|t: int| hi <= t < N ==> K::model_lt(qm, #[trigger] ms[t]),
            decreases hi - lo,
        {
            let mid = lo + (hi - lo) / 2;
            let k: K = self.keys[mid];
            proof {
                assert(k.model() == ms[mid as int]);
            }
            let o = k.query_cmp(key);
            match o {
                Ordering::Equal => {
                    proof {
                        self.lemma_found_at(mid as int, qm);
                    }
                    return Some(&self.values[mid]);
                },
                Ordering::Less => {
                    proof {
                        assert forall|t: int| 0 <= t < mid + 1 implies K::model_lt(
                            #[trigger] ms[t],
                            qm,
                        ) by {
                            if t < mid {
                                K::lemma_model_lt_transitive(ms[t], ms[mid as int], qm);
                            }
                        }
                    }
                    lo = mid + 1;
                },
                Ordering::Greater => {
                    proof {
                        assert forall|t: int| mid <= t < N implies K::model_lt(
                            qm,
                            #[trigger] ms[t],
                        ) by {
                            if t > mid {
                                K::lemma_model_lt_transitive(qm, ms[mid as int], ms[t]);
                            }
                        }
                    }
                    hi = mid;
                },
            }
        }
        proof {
            self.lemma_absent(qm, lo as int);
        }
        None
    }

    /// Binary search by a constructed key wrapper; agrees with [`Self::get`]
    /// on the raw value the wrapper is a view of.
    pub fn get_key<'a>(&'a self, key: &K) -> (r: Option<&'a V>)
        ensures
            (match r {
                Some(v) => self.spec_get(key.model()) == Some(*v),
                None => self.spec_get(key.model()) is None,
            }),
    {
        proof {
            use_type_invariant(self);
        }
        let ghost qm = key.model();
        let ghost ms = self.key_models();
        let mut lo: usize = 0;
        let mut hi: usize = N;
        while lo < hi
            invariant
                lo <= hi <= N,
                qm == key.model(),
                ms == self.key_models(),
                ms.len() == N,
                models_sorted::<K>(ms),
                forall|t: int| 0 <= t < lo ==> K::model_lt(#[trigger] ms[t], qm),
                forall|t: int| hi <= t < N ==> K::model_lt(qm, #[trigger] ms[t]),
            decreases hi - lo,
        {
            let mid = lo + (hi - lo) / 2;
            let k: K = self.keys[mid];
            proof {
                assert(k.model() == ms[mid as int]);
            }
            let o = k.key_cmp(key);
            match o {
                Ordering::Equal => {
                    proof {
                        self.lemma_found_at(mid as int, qm);
                    }
                    return Some(&self.values[mid]);
                },
                Ordering::Less => {
                    proof {
                        assert forall|t: int| 0 <= t < mid + 1 implies K::model_lt(
                            #[trigger] ms[t],
                            qm,
                        ) by {
                            if t < mid {
                                K::lemma_model_lt_transitive(ms[t], ms[mid as int], qm);
                            }
                        }
                    }
                    lo = mid + 1;
                },
                Ordering::Greater => {
                    proof {
                        assert forall|t: int| mid <= t < N implies K::model_lt(
                            qm,
                            #[trigger] ms[t],
                        ) by {
                            if t > mid {
                                K::lemma_model_lt_transitive(qm, ms[mid as int], ms[t]);
                            }
                        }
                    }
                    hi = mid;
                },
            }
        }
        proof {
            self.lemma_absent(qm, lo as int);
        }
        None
    }
}

/// Two strictly sorted model sequences with the same multiset are the same
/// sequence.
proof fn lemma_sorted_unique<K: LutKey>(a: Seq<K::M>, b: Seq<K::M>)
    requires
        models_sorted::<K>(a),
        models_sorted::<K>(b),
        a.to_multiset() == b.to_multiset(),
    ensures
        a == b,
    decreases a.len(),
{
    broadcast use vstd::seq_lib::group_to_multiset_ensures;
    broadcast use vstd::multiset::group_multiset_axioms;

    if a.len() == 0 {
        a.to_multiset_ensures();
        b.to_multiset_ensures();
        assert(b.len() == 0);
        assert(a =~= b);
    } else {
        assert(a.contains(a[0]));
        assert(b.to_multiset().count(a[0]) > 0);
        assert(b.contains(a[0]));
        let k = choose|k: int| 0 <= k < b.len() && b[k] == a[0];
        if k > 0 {
            assert(K::model_lt(b[0], b[k]));
            assert(a.to_multiset().count(b[0]) > 0);
            assert(a.contains(b[0]));
            let j = choose|j: int| 0 <= j < a.len() && a[j] == b[0];
            if j > 0 {
                assert(K::model_lt(a[0], a[j]));
                K::lemma_model_lt_asymmetric(b[0], a[0]);
            } else {
                lemma_model_lt_irreflexive::<K>(a[0]);
            }
        }
        assert(b[0] == a[0]);
        assert(a.drop_first() =~= a.remove(0));
        assert(b.drop_first() =~= b.remove(0));
        assert(a.remove(0).to_multiset() =~= b.remove(0).to_multiset());
        assert forall|x: int, y: int|
            0 <= x < y < a.drop_first().len() implies #[trigger] K::model_lt(
            a.drop_first()[x],
            a.drop_first()[y],
        ) by {
            assert(K::model_lt(a[x + 1], a[y + 1]));
        }
        assert forall|x: int, y: int|
            0 <= x < y < b.drop_first().len() implies #[trigger] K::model_lt(
            b.drop_first()[x],
            b.drop_first()[y],
        ) by {
            assert(K::model_lt(b[x + 1], b[y + 1]));
        }
        lemma_sorted_unique::<K>(a.drop_first(), b.drop_first());
        assert(a.len() == b.len());
        assert forall|x: int| 0 <= x < a.len() implies a[x] == b[x] by {
            if x > 0 {
                assert(a[x] == a.drop_first()[x - 1]);
                assert(b[x] == b.drop_first()[x - 1]);
            }
        }
        assert(a =~= b);
    }
}

/// Round-trip law: build a table from pairs whose key models are pairwise
/// distinct, in any order, and a lookup by any input key's model returns the
/// value originally paired with that key. The premises are what
/// [`ConstSortedLut::try_new`] ensures of a successful build.
pub proof fn lemma_round_trip<K: LutKey, V, const N: usize>(
    t: ConstSortedLut<K, V, N>,
    entries: Seq<LutEntry<K, V>>,
    i: int,
)
    requires
        entry_models(entries).no_duplicates(),
        models_sorted::<K>(t.key_models()),
        t.key_models().len() == N,
        t.vals().len() == N,
        t.pairs().to_multiset() == entry_pairs(entries).to_multiset(),
        0 <= i < entries.len(),
    ensures
        t.spec_get(entries[i].key.model()) == Some(entries[i].value),
{
    broadcast use vstd::seq_lib::group_to_multiset_ensures;
    broadcast use vstd::multiset::group_multiset_axioms;

    let m = entries[i].key.model();
    let v = entries[i].value;
    assert(entry_pairs(entries)[i] == (m, v));
    assert(entry_pairs(entries).contains((m, v)));
    assert(t.pairs().to_multiset().count((m, v)) > 0);
    assert(t.pairs().contains((m, v)));
    let w = choose|w: int| 0 <= w < t.pairs().len() && t.pairs()[w] == (m, v);
    assert(t.key_models()[w] == m);
    assert(t.vals()[w] == v);
    assert(t.has_model(m));
    let w0 = t.model_index(m);
    lemma_sorted_no_duplicates::<K>(t.key_models());
    assert(w0 == w);
}

/// Order-normalization law: tables built from two inputs that hold the same
/// key models — in particular from two permutations of one entry array —
/// have identical key sequences. The premises relating each table to its
/// input are what [`ConstSortedLut::try_new`] ensures of a successful build.
pub proof fn lemma_order_normalization<K: LutKey, V, const N: usize>(
    t1: ConstSortedLut<K, V, N>,
    t2: ConstSortedLut<K, V, N>,
    e1: Seq<LutEntry<K, V>>,
    e2: Seq<LutEntry<K, V>>,
)
    requires
        models_sorted::<K>(t1.key_models()),
        models_sorted::<K>(t2.key_models()),
        t1.key_models().to_multiset() == entry_models(e1).to_multiset(),
        t2.key_models().to_multiset() == entry_models(e2).to_multiset(),
        entry_models(e1).to_multiset() == entry_models(e2).to_multiset(),
    ensures
        t1.key_models() == t2.key_models(),
{
    lemma_sorted_unique::<K>(t1.key_models(), t2.key_models());
}

impl<K: LutKey, V, const N: usize> ConstSortedLut<K, V, N> {
    /// A sorted table that holds model `m` at position `i` returns the value
    /// at `i` for it: strict sortedness makes the matching position unique.
    proof fn lemma_found_at(self, i: int, m: K::M)
        requires
            models_sorted::<K>(self.key_models()),
            0 <= i < self.key_models().len(),
            self.key_models()[i] == m,
        ensures
            self.spec_get(m) == Some(self.vals()[i]),
    {
        let ms = self.key_models();
        assert(self.has_model(m));
        let w = self.model_index(m);
        if w < i {
            assert(K::model_lt(ms[w], ms[i]));
            lemma_model_lt_irreflexive::<K>(m);
        } else if w > i {
            assert(K::model_lt(ms[i], ms[w]));
            lemma_model_lt_irreflexive::<K>(m);
        }
    }

    /// When everything below `split` is smaller than `m` and everything at or
    /// above it is greater, no stored key has model `m`.
    proof fn lemma_absent(self, m: K::M, split: int)
        requires
            0 <= split <= self.key_models().len(),
            forall|t: int| 0 <= t < split ==> K::model_lt(#[trigger] self.key_models()[t], m),
            forall|t: int|
                split <= t < self.key_models().len() ==> K::model_lt(
                    m,
                    #[trigger] self.key_models()[t],
                ),
        ensures
            self.spec_get(m) is None,
    {
        let ms = self.key_models();
        assert forall|t: int| 0 <= t < ms.len() implies ms[t] != m by {
            if ms[t] == m {
                lemma_model_lt_irreflexive::<K>(m);
            }
        }
    }
}

} // verus!
