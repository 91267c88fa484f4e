//! Stable sorting by an integer key.
//!
//! `stable_sorted` is the order a stable sort produces: items ordered by key, items
//! with equal keys in their original order. `lemma_stable_sorted_sorted` and
//! `lemma_stable_sorted_permutation` state that this is a sorted rearrangement.
use vstd::prelude::*;

verus! {

/// Types ordered by an integer key.
pub trait SortKey {
    spec fn key(&self) -> int;

    fn sort_key(&self) -> (k: i128)
        ensures
            k == self.key(),
    ;
}

/// First position at or after `j` whose key is at least `k`, or the length.
pub open spec fn first_not_below<T>(s: Seq<T>, key: spec_fn(T) -> int, k: int, j: int) -> int
    decreases s.len() - j,
{
    if j >= s.len() {
        s.len() as int
    } else if key(s[j]) >= k {
        j
    } else {
        first_not_below(s, key, k, j + 1)
    }
}

/// `s` with `x` placed before the first item whose key is not below that of `x`.
pub open spec fn insert_front<T>(s: Seq<T>, key: spec_fn(T) -> int, x: T) -> Seq<T> {
    s.insert(first_not_below(s, key, key(x), 0), x)
}

/// The result of a stable sort by `key`.
pub open spec fn stable_sorted_by<T>(s: Seq<T>, key: spec_fn(T) -> int) -> Seq<T>
    decreases s.len(),
{
    if s.len() == 0 {
        s
    } else {
        insert_front(stable_sorted_by(s.drop_first(), key), key, s[0])
    }
}

/// The result of a stable sort by the items' own key.
pub open spec fn stable_sorted<T: SortKey>(s: Seq<T>) -> Seq<T> {
    stable_sorted_by(s, |x: T| x.key())
}

pub open spec fn keys_sorted<T>(s: Seq<T>, key: spec_fn(T) -> int) -> bool {
    forall|i: int, j: int| 0 <= i <= j < s.len() ==> key(s[i]) <= key(s[j])
}

proof fn lemma_first_not_below<T>(s: Seq<T>, key: spec_fn(T) -> int, k: int, j: int)
    requires
        0 <= j <= s.len(),
    ensures
        j <= first_not_below(s, key, k, j) <= s.len(),
        forall|i: int| j <= i < first_not_below(s, key, k, j) ==> key(s[i]) < k,
        first_not_below(s, key, k, j) < s.len() ==> key(s[first_not_below(s, key, k, j)]) >= k,
    decreases s.len() - j,
{
    if j < s.len() && key(s[j]) < k {
        lemma_first_not_below(s, key, k, j + 1);
    }
}

proof fn lemma_first_not_below_map<T, V>(
    s: Seq<T>,
    key: spec_fn(T) -> int,
    f: spec_fn(T) -> V,
    vkey: spec_fn(V) -> int,
    k: int,
    j: int,
)
    requires
        0 <= j <= s.len(),
        forall|x: T| #[trigger] vkey(f(x)) == key(x),
    ensures
        first_not_below(s.map_values(f), vkey, k, j) == first_not_below(s, key, k, j),
    decreases s.len() - j,
{
    if j < s.len() {
        assert(vkey(s.map_values(f)[j]) == key(s[j]));
        lemma_first_not_below_map(s, key, f, vkey, k, j + 1);
    }
}

/// Sorting commutes with taking views that keep the key.
pub proof fn lemma_stable_sorted_map<T, V>(
    s: Seq<T>,
    key: spec_fn(T) -> int,
    f: spec_fn(T) -> V,
    vkey: spec_fn(V) -> int,
)
    requires
        forall|x: T| #[trigger] vkey(f(x)) == key(x),
    ensures
        stable_sorted_by(s.map_values(f), vkey) == stable_sorted_by(s, key).map_values(f),
    decreases s.len(),
{
    if s.len() > 0 {
        let t = stable_sorted_by(s.drop_first(), key);
        lemma_stable_sorted_map(s.drop_first(), key, f, vkey);
        assert(s.map_values(f).drop_first() =~= s.drop_first().map_values(f));
        lemma_stable_sorted_sorted(s.drop_first(), key);
        lemma_first_not_below_map(t, key, f, vkey, key(s[0]), 0);
        let p = first_not_below(t, key, key(s[0]), 0);
        lemma_first_not_below(t, key, key(s[0]), 0);
        assert(t.insert(p, s[0]).map_values(f) =~= t.map_values(f).insert(p, f(s[0])));
    }
}

/// A stable sort leaves the items ordered by key.
pub proof fn lemma_stable_sorted_sorted<T>(s: Seq<T>, key: spec_fn(T) -> int)
    ensures
        keys_sorted(stable_sorted_by(s, key), key),
        stable_sorted_by(s, key).len() == s.len(),
    decreases s.len(),
{
    if s.len() > 0 {
        let t = stable_sorted_by(s.drop_first(), key);
        lemma_stable_sorted_sorted(s.drop_first(), key);
        let p = first_not_below(t, key, key(s[0]), 0);
        lemma_first_not_below(t, key, key(s[0]), 0);
        let r = t.insert(p, s[0]);
        assert forall|i: int, j: int| 0 <= i <= j < r.len() implies key(r[i]) <= key(r[j]) by {
            if i < p && j < p {
                assert(r[i] == t[i] && r[j] == t[j]);
            } else if i < p && j == p {
            } else if i < p {
                assert(r[i] == t[i] && r[j] == t[j - 1]);
            } else if i == p && j == p {
            } else if i == p {
                assert(r[j] == t[j - 1]);
                if p < t.len() {
                    assert(key(t[p]) <= key(t[j - 1]));
                }
            } else {
                assert(r[i] == t[i - 1] && r[j] == t[j - 1]);
            }
        }
    }
}

/// A stable sort rearranges the items without adding or dropping any.
pub proof fn lemma_stable_sorted_permutation<T>(s: Seq<T>, key: spec_fn(T) -> int)
    ensures
        stable_sorted_by(s, key).to_multiset() == s.to_multiset(),
    decreases s.len(),
{
    broadcast use vstd::seq_lib::group_to_multiset_ensures;

    if s.len() > 0 {
        let t = stable_sorted_by(s.drop_first(), key);
        lemma_stable_sorted_permutation(s.drop_first(), key);
        lemma_stable_sorted_sorted(s.drop_first(), key);
        let p = first_not_below(t, key, key(s[0]), 0);
        lemma_first_not_below(t, key, key(s[0]), 0);
        vstd::seq_lib::lemma_seq_union_to_multiset_commutative(t.take(p), t.skip(p));
        assert(t.insert(p, s[0]) =~= t.take(p) + seq![s[0]] + t.skip(p));
        assert(t =~= t.take(p) + t.skip(p));
        vstd::seq_lib::lemma_multiset_commutative(t.take(p) + seq![s[0]], t.skip(p));
        vstd::seq_lib::lemma_multiset_commutative(t.take(p), seq![s[0]]);
        vstd::seq_lib::lemma_multiset_commutative(t.take(p), t.skip(p));
        assert(s =~= seq![s[0]] + s.drop_first());
        vstd::seq_lib::lemma_multiset_commutative(seq![s[0]], s.drop_first());
    }
}

/// Every item of a stably sorted sequence comes from the original one.
pub proof fn lemma_stable_sorted_elements<T>(s: Seq<T>, key: spec_fn(T) -> int)
    ensures
        forall|i: int|
            0 <= i < stable_sorted_by(s, key).len() ==> s.contains(
                #[trigger] stable_sorted_by(s, key)[i],
            ),
{
    broadcast use vstd::seq_lib::group_to_multiset_ensures;

    lemma_stable_sorted_permutation(s, key);
    let t = stable_sorted_by(s, key);
    assert forall|i: int| 0 <= i < t.len() implies s.contains(#[trigger] t[i]) by {
        assert(t.contains(t[i]));
        assert(t.to_multiset().count(t[i]) > 0);
    }
}

/// Filtering a sequence with `x` in front.
proof fn lemma_filter_cons<T>(x: T, t: Seq<T>, p: spec_fn(T) -> bool)
    ensures
        (seq![x] + t).filter(p) == (if p(x) {
            seq![x]
        } else {
            Seq::<T>::empty()
        }) + t.filter(p),
{
    Seq::filter_distributes_over_add(seq![x], t, p);
    reveal_with_fuel(Seq::filter, 2);
    assert(seq![x].drop_last() =~= Seq::<T>::empty());
}

/// Filtering the two parts of a sequence split at `j`.
proof fn lemma_filter_split<T>(s: Seq<T>, j: int, p: spec_fn(T) -> bool)
    requires
        0 <= j <= s.len(),
    ensures
        s.filter(p) == s.take(j).filter(p) + s.skip(j).filter(p),
{
    assert(s =~= s.take(j) + s.skip(j));
    Seq::filter_distributes_over_add(s.take(j), s.skip(j), p);
}

/// The first position whose key is not below `k`, in a sequence whose first part
/// lies below `k` and whose second part starts at or above it.
proof fn lemma_first_not_below_concat<T>(a: Seq<T>, b: Seq<T>, key: spec_fn(T) -> int, k: int)
    requires
        forall|i: int| 0 <= i < a.len() ==> key(#[trigger] a[i]) < k,
        b.len() > 0 ==> key(b[0]) >= k,
    ensures
        first_not_below(a + b, key, k, 0) == a.len(),
{
    let s = a + b;
    lemma_first_not_below(s, key, k, 0);
    let f = first_not_below(s, key, k, 0);
    if f < a.len() {
        assert(s[f] == a[f]);
    } else if f > a.len() {
        assert(s[a.len() as int] == b[0]);
    }
}

/// Sorting then keeping the items that satisfy `p` gives what keeping them first and
/// then sorting gives.
pub proof fn lemma_stable_sorted_filter<T>(s: Seq<T>, key: spec_fn(T) -> int, p: spec_fn(T) -> bool)
    ensures
        stable_sorted_by(s.filter(p), key) == stable_sorted_by(s, key).filter(p),
    decreases s.len(),
{
    if s.len() == 0 {
        reveal_with_fuel(Seq::filter, 1);
        assert(s.filter(p) =~= s);
    } else {
        let x = s[0];
        let t = s.drop_first();
        assert(s =~= seq![x] + t);
        lemma_filter_cons(x, t, p);
        lemma_stable_sorted_filter(t, key, p);
        let ss = stable_sorted_by(t, key);
        lemma_stable_sorted_sorted(t, key);
        let j = first_not_below(ss, key, key(x), 0);
        lemma_first_not_below(ss, key, key(x), 0);
        lemma_filter_split(ss, j, p);
        assert(ss.insert(j, x) =~= ss.take(j) + (seq![x] + ss.skip(j)));
        Seq::filter_distributes_over_add(ss.take(j), seq![x] + ss.skip(j), p);
        lemma_filter_cons(x, ss.skip(j), p);
        let a = ss.take(j).filter(p);
        let b = ss.skip(j).filter(p);
        if p(x) {
            let f = s.filter(p);
            assert(f.drop_first() =~= t.filter(p));
            assert(f[0] == x);
            assert forall|i: int| 0 <= i < a.len() implies key(#[trigger] a[i]) < key(x) by {
                assert(a.contains(a[i]));
                ss.take(j).lemma_filter_contains_rev(p, a[i]);
                let m = choose|m: int| 0 <= m < ss.take(j).len() && ss.take(j)[m] == a[i];
                assert(ss[m] == a[i]);
            }
            if b.len() > 0 {
                assert(b.contains(b[0]));
                ss.skip(j).lemma_filter_contains_rev(p, b[0]);
                let m = choose|m: int| 0 <= m < ss.skip(j).len() && ss.skip(j)[m] == b[0];
                assert(ss[j + m] == b[0]);
                assert(key(ss[j]) <= key(ss[j + m]));
            }
            lemma_first_not_below_concat(a, b, key, key(x));
            assert((a + b).insert(a.len() as int, x) =~= a + (seq![x] + b));
        } else {
            assert(s.filter(p) =~= t.filter(p));
            assert(Seq::<T>::empty() + b =~= b);
        }
    }
}

/// Sorts by key, keeping items with equal keys in their original order.
pub fn stable_sort<T: SortKey>(v: Vec<T>) -> (r: Vec<T>)
    ensures
        r@ == stable_sorted(v@),
{
    let ghost orig = v@;
    let mut v = v;
    let mut r: Vec<T> = Vec::new();
    while v.len() > 0
        invariant
            v@ == orig.take(v@.len() as int),
            v@.len() <= orig.len(),
            r@ == stable_sorted(orig.skip(v@.len() as int)),
        decreases v.len(),
    {
        let x = v.pop().unwrap();
        let ghost n: int = v@.len() as int;
        proof {
            assert(orig.skip(n) =~= seq![x] + orig.skip(n + 1));
            assert(orig.skip(n).drop_first() =~= orig.skip(n + 1));
            assert(orig.skip(n)[0] == x);
            assert(v@ =~= orig.take(n));
        }
        let k = x.sort_key();
        let mut j: usize = 0;
        while j < r.len() && r[j].sort_key() < k
            invariant
                j <= r@.len(),
                k == x.key(),
                first_not_below(r@, |y: T| y.key(), k as int, 0) == first_not_below(
                    r@,
                    |y: T| y.key(),
                    k as int,
                    j as int,
                ),
            decreases r.len() - j,
        {
            j = j + 1;
        }
        r.insert(j, x);
    }
    proof {
        assert(orig.skip(0) =~= orig);
    }
    r
}

} // verus!
