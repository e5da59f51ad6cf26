//! Stable sorting under a strict order, as mathematics.
//!
//! The order is a relation `before`: `before(a, b)` says that `a` must come
//! strictly ahead of `b`. Two items of which neither is before the other are
//! tied, and a stable sort keeps tied items in the order in which it found
//! them.

use vstd::prelude::*;
use vstd::seq_lib::*;

verus! {

/// No item of `s` stands behind one that it is strictly before.
pub open spec fn ordered<T>(before: spec_fn(T, T) -> bool, s: Seq<T>) -> bool {
    forall|i: int, j: int| #![trigger s[i], s[j]] 0 <= i < j < s.len() ==> !before(s[j], s[i])
}

/// `before` is a strict weak order: nothing is on both sides of it, and
/// "not behind" carries over from one pair to the next.
pub open spec fn strict_weak_order<T>(before: spec_fn(T, T) -> bool) -> bool {
    &&& forall|a: T, b: T| #[trigger] before(a, b) ==> !before(b, a)
    &&& forall|a: T, b: T, c: T|
        !#[trigger] before(b, a) && !#[trigger] before(c, b) ==> !before(c, a)
}

/// All the items that satisfy `tied` are pairwise tied under `before`.
pub open spec fn all_tied<T>(before: spec_fn(T, T) -> bool, tied: spec_fn(T) -> bool) -> bool {
    forall|a: T, b: T| #![trigger tied(a), tied(b)] tied(a) && tied(b) ==> !before(a, b)
}

/// `relation` holds between every two items of `s` at different places.
pub open spec fn pairwise<T>(relation: spec_fn(T, T) -> bool, s: Seq<T>) -> bool {
    forall|i: int, j: int|
        #![trigger s[i], s[j]]
        0 <= i < s.len() && 0 <= j < s.len() && i != j ==> relation(s[i], s[j])
}

/// The strict order of a key: `a` is before `b` where its key is smaller.
pub open spec fn by_key<T>(key: spec_fn(T) -> int) -> spec_fn(T, T) -> bool {
    |a: T, b: T| key(a) < key(b)
}

/// The keys of `s` never fall from one item to the next.
pub open spec fn ascending<T>(key: spec_fn(T) -> int, s: Seq<T>) -> bool {
    forall|i: int, j: int| #![trigger s[i], s[j]] 0 <= i < j < s.len() ==> key(s[i]) <= key(s[j])
}

/// The items of `s` with the key `k`, in the order in which they stand.
pub open spec fn with_key<T>(key: spec_fn(T) -> int, s: Seq<T>, k: int) -> Seq<T> {
    s.filter(|x: T| key(x) == k)
}

/// Where `x` goes when it arrives behind `s`: in front of the longest run at
/// the end of `s` whose items `x` is strictly before.
pub open spec fn insertion_point<T>(before: spec_fn(T, T) -> bool, s: Seq<T>, x: T) -> int
    decreases s.len(),
{
    if s.len() > 0 && before(x, s.last()) {
        insertion_point(before, s.drop_last(), x)
    } else {
        s.len() as int
    }
}

/// `s` with `x` put at its insertion point.
pub open spec fn inserted<T>(before: spec_fn(T, T) -> bool, s: Seq<T>, x: T) -> Seq<T> {
    s.insert(insertion_point(before, s, x), x)
}

/// The stable sort of `s`: its items arrive one by one, in the order of `s`,
/// and each overtakes only those that it is strictly before.
pub open spec fn stable_sorted<T>(before: spec_fn(T, T) -> bool, s: Seq<T>) -> Seq<T>
    decreases s.len(),
{
    if s.len() == 0 {
        s
    } else {
        inserted(before, stable_sorted(before, s.drop_last()), s.last())
    }
}

/// The insertion point lies within `s`, `x` is before everything behind it,
/// and `x` is not before the item just ahead of it.
pub proof fn lemma_insertion_point<T>(before: spec_fn(T, T) -> bool, s: Seq<T>, x: T)
    ensures
        0 <= insertion_point(before, s, x) <= s.len(),
        forall|j: int| insertion_point(before, s, x) <= j < s.len() ==> before(x, #[trigger] s[j]),
        insertion_point(before, s, x) > 0 ==> !before(x, s[insertion_point(before, s, x) - 1]),
    decreases s.len(),
{
    if s.len() > 0 && before(x, s.last()) {
        lemma_insertion_point(before, s.drop_last(), x);
        let p = insertion_point(before, s.drop_last(), x);
        assert forall|j: int| p <= j < s.len() implies before(x, #[trigger] s[j]) by {
            if j < s.len() - 1 {
                assert(s.drop_last()[j] == s[j]);
            }
        }
        if p > 0 {
            assert(s.drop_last()[p - 1] == s[p - 1]);
        }
    }
}

/// The place `k` is the insertion point of `x` as soon as `x` is before
/// everything from `k` on and not before the item just ahead of `k`.
pub proof fn lemma_insertion_point_is<T>(before: spec_fn(T, T) -> bool, s: Seq<T>, x: T, k: int)
    requires
        0 <= k <= s.len(),
        forall|j: int| k <= j < s.len() ==> before(x, #[trigger] s[j]),
        k > 0 ==> !before(x, s[k - 1]),
    ensures
        insertion_point(before, s, x) == k,
        inserted(before, s, x) == s.insert(k, x),
    decreases s.len(),
{
    if k < s.len() {
        assert(before(x, s[s.len() - 1]));
        let t = s.drop_last();
        assert forall|j: int| k <= j < t.len() implies before(x, #[trigger] t[j]) by {
            assert(t[j] == s[j]);
        }
        lemma_insertion_point_is(before, t, x, k);
    }
}

/// Sorting neither drops nor adds an item.
pub proof fn lemma_sorted_permutes<T>(before: spec_fn(T, T) -> bool, s: Seq<T>)
    ensures
        stable_sorted(before, s).len() == s.len(),
        stable_sorted(before, s).to_multiset() == s.to_multiset(),
    decreases s.len(),
{
    if s.len() > 0 {
        let t = s.drop_last();
        let r = stable_sorted(before, t);
        lemma_sorted_permutes(before, t);
        lemma_insertion_point(before, r, s.last());
        to_multiset_insert(r, insertion_point(before, r, s.last()), s.last());
        to_multiset_build(t, s.last());
        assert(t.push(s.last()) =~= s);
    }
}

/// The sorted sequence holds exactly the items of `s`.
pub proof fn lemma_sorted_same_items<T>(before: spec_fn(T, T) -> bool, s: Seq<T>)
    ensures
        forall|x: T| #[trigger] stable_sorted(before, s).contains(x) <==> s.contains(x),
{
    lemma_sorted_permutes(before, s);
    assert forall|x: T| #[trigger] stable_sorted(before, s).contains(x) <==> s.contains(x) by {
        to_multiset_contains(stable_sorted(before, s), x);
        to_multiset_contains(s, x);
    }
}

/// Under a strict weak order, putting an item at its insertion point keeps an
/// ordered sequence ordered.
pub proof fn lemma_inserted_ordered<T>(before: spec_fn(T, T) -> bool, s: Seq<T>, x: T)
    requires
        strict_weak_order(before),
        ordered(before, s),
    ensures
        ordered(before, inserted(before, s, x)),
{
    lemma_insertion_point(before, s, x);
    let p = insertion_point(before, s, x);
    let r = inserted(before, s, x);
    assert forall|i: int, j: int| 0 <= i < j < r.len() implies !before(
        #[trigger] r[j],
        #[trigger] r[i],
    ) by {
        if i == p {
            assert(r[j] == s[j - 1]);
            assert(before(x, s[j - 1]));
        } else if j == p {
            assert(r[i] == s[i]);
            if i < p - 1 {
                assert(!before(s[p - 1], s[i]));
            }
            assert(!before(x, s[p - 1]));
        } else {
            let i0 = if i < p { i } else { i - 1 };
            let j0 = if j < p { j } else { j - 1 };
            assert(r[i] == s[i0] && r[j] == s[j0]);
        }
    }
}

/// Under a strict weak order the sorted sequence is ordered.
pub proof fn lemma_sorted_ordered<T>(before: spec_fn(T, T) -> bool, s: Seq<T>)
    requires
        strict_weak_order(before),
    ensures
        ordered(before, stable_sorted(before, s)),
    decreases s.len(),
{
    if s.len() > 0 {
        lemma_sorted_ordered(before, s.drop_last());
        lemma_inserted_ordered(before, stable_sorted(before, s.drop_last()), s.last());
    }
}

/// A relation that holds between every two items of `s` still holds between
/// every two items of the sorted sequence.
pub proof fn lemma_sorted_pairwise<T>(
    before: spec_fn(T, T) -> bool,
    relation: spec_fn(T, T) -> bool,
    s: Seq<T>,
)
    requires
        pairwise(relation, s),
    ensures
        pairwise(relation, stable_sorted(before, s)),
    decreases s.len(),
{
    if s.len() > 0 {
        let t = s.drop_last();
        let x = s.last();
        let r = stable_sorted(before, t);
        assert(pairwise(relation, t)) by {
            assert forall|i: int, j: int|
                0 <= i < t.len() && 0 <= j < t.len() && i != j implies relation(
                #[trigger] t[i],
                #[trigger] t[j],
            ) by {
                assert(t[i] == s[i] && t[j] == s[j]);
            }
        }
        lemma_sorted_pairwise(before, relation, t);
        lemma_sorted_same_items(before, t);
        lemma_insertion_point(before, r, x);
        let p = insertion_point(before, r, x);
        let out = inserted(before, r, x);
        assert forall|i: int, j: int|
            0 <= i < out.len() && 0 <= j < out.len() && i != j implies relation(
            #[trigger] out[i],
            #[trigger] out[j],
        ) by {
            let i0 = if i < p { i } else { i - 1 };
            let j0 = if j < p { j } else { j - 1 };
            if i == p {
                assert(out[j] == r[j0]);
                assert(r.contains(r[j0]));
                let m = choose|m: int| 0 <= m < t.len() && t[m] == r[j0];
                assert(s[m] == t[m]);
                assert(relation(s[s.len() - 1], s[m]));
            } else if j == p {
                assert(out[i] == r[i0]);
                assert(r.contains(r[i0]));
                let m = choose|m: int| 0 <= m < t.len() && t[m] == r[i0];
                assert(s[m] == t[m]);
                assert(relation(s[m], s[s.len() - 1]));
            } else {
                assert(out[i] == r[i0] && out[j] == r[j0]);
            }
        }
    }
}

/// Putting `x` at its insertion point or at the very end makes no difference
/// to the items of a class in which all are tied.
pub proof fn lemma_inserted_keeps_ties<T>(
    before: spec_fn(T, T) -> bool,
    tied: spec_fn(T) -> bool,
    s: Seq<T>,
    x: T,
)
    requires
        all_tied(before, tied),
    ensures
        inserted(before, s, x).filter(tied) == s.push(x).filter(tied),
    decreases s.len(),
{
    if s.len() > 0 && before(x, s.last()) {
        let t = s.drop_last();
        let y = s.last();
        lemma_insertion_point(before, t, x);
        lemma_inserted_keeps_ties(before, tied, t, x);
        assert(inserted(before, s, x) =~= inserted(before, t, x).push(y));
        assert(t.push(y) =~= s);
        inserted(before, t, x).lemma_filter_push(y, tied);
        t.lemma_filter_push(x, tied);
        t.lemma_filter_push(y, tied);
        s.lemma_filter_push(x, tied);
        assert(!(tied(x) && tied(y)));
    } else {
        assert(inserted(before, s, x) =~= s.push(x));
    }
}

/// Sorting is stable: the items of a class in which all are tied come out in
/// the order in which they went in.
pub proof fn lemma_sorted_stable<T>(
    before: spec_fn(T, T) -> bool,
    tied: spec_fn(T) -> bool,
    s: Seq<T>,
)
    requires
        all_tied(before, tied),
    ensures
        stable_sorted(before, s).filter(tied) == s.filter(tied),
    decreases s.len(),
{
    if s.len() > 0 {
        let t = s.drop_last();
        let x = s.last();
        let r = stable_sorted(before, t);
        lemma_sorted_stable(before, tied, t);
        lemma_inserted_keeps_ties(before, tied, r, x);
        r.lemma_filter_push(x, tied);
        t.lemma_filter_push(x, tied);
        assert(t.push(x) =~= s);
    }
}

/// The items that are tied with `x`: neither is before the other.
pub open spec fn tied_with<T>(before: spec_fn(T, T) -> bool, x: T) -> spec_fn(T) -> bool {
    |y: T| !before(x, y) && !before(y, x)
}

/// Every class in which all are tied is kept in its order from `a` to `b`.
pub open spec fn keeps_ties<T>(before: spec_fn(T, T) -> bool, a: Seq<T>, b: Seq<T>) -> bool {
    forall|tied: spec_fn(T) -> bool|
        all_tied(before, tied) ==> #[trigger] a.filter(tied) == b.filter(tied)
}

/// Under a strict weak order the items tied with one item are all tied with
/// each other.
pub proof fn lemma_tied_with_all_tied<T>(before: spec_fn(T, T) -> bool, x: T)
    requires
        strict_weak_order(before),
    ensures
        all_tied(before, tied_with(before, x)),
        tied_with(before, x)(x),
{
    let tied = tied_with(before, x);
    assert forall|a: T, b: T| #![trigger tied(a), tied(b)] tied(a) && tied(b) implies !before(
        a,
        b,
    ) by {
        assert(!before(x, b) && !before(a, x));
    }
    if before(x, x) {
        assert(!before(x, x));
    }
}

/// What a filter makes of a sequence without its first item.
pub proof fn lemma_filter_drop_first<T>(s: Seq<T>, pred: spec_fn(T) -> bool)
    requires
        s.len() > 0,
    ensures
        pred(s[0]) ==> s.filter(pred).len() > 0 && s.filter(pred)[0] == s[0]
            && s.drop_first().filter(pred) == s.filter(pred).drop_first(),
        !pred(s[0]) ==> s.drop_first().filter(pred) == s.filter(pred),
{
    let rest = s.drop_first();
    rest.lemma_filter_prepend(s[0], pred);
    assert(seq![s[0]] + rest =~= s);
    if pred(s[0]) {
        assert((seq![s[0]] + rest.filter(pred)).drop_first() =~= rest.filter(pred));
    } else {
        assert(Seq::<T>::empty() + rest.filter(pred) =~= rest.filter(pred));
    }
}

/// Two sequences of the same items that are both in order under a strict
/// weak order, and in which every class of tied items stands in the same
/// order, are the same sequence.
pub proof fn lemma_order_and_ties_fix_the_sequence<T>(
    before: spec_fn(T, T) -> bool,
    a: Seq<T>,
    b: Seq<T>,
)
    requires
        strict_weak_order(before),
        a.to_multiset() == b.to_multiset(),
        ordered(before, a),
        ordered(before, b),
        keeps_ties(before, a, b),
    ensures
        a == b,
    decreases a.len(),
{
    to_multiset_len(a);
    to_multiset_len(b);
    if a.len() == 0 {
        assert(a =~= b);
    } else {
        let tied = tied_with(before, a[0]);
        lemma_tied_with_all_tied(before, a[0]);
        // the first item of each is tied with the first item of the other
        to_multiset_contains(a, b[0]);
        to_multiset_contains(b, b[0]);
        assert(b.contains(b[0]));
        let j = choose|j: int| 0 <= j < a.len() && a[j] == b[0];
        if j > 0 {
            assert(!before(a[j], a[0]));
        }
        to_multiset_contains(a, a[0]);
        to_multiset_contains(b, a[0]);
        assert(a.contains(a[0]));
        let k = choose|k: int| 0 <= k < b.len() && b[k] == a[0];
        if k > 0 {
            assert(!before(b[k], b[0]));
        }
        assert(tied(b[0]));
        // so they are the same item
        assert(a.filter(tied) == b.filter(tied));
        lemma_filter_drop_first(a, tied);
        lemma_filter_drop_first(b, tied);
        assert(a[0] == b[0]);
        // and what follows them is the same by induction
        let a_rest = a.drop_first();
        let b_rest = b.drop_first();
        to_multiset_remove(a, 0);
        to_multiset_remove(b, 0);
        assert(a.remove(0) =~= a_rest);
        assert(b.remove(0) =~= b_rest);
        assert forall|i: int, j: int| 0 <= i < j < a_rest.len() implies !before(
            #[trigger] a_rest[j],
            #[trigger] a_rest[i],
        ) by {
            assert(!before(a[j + 1], a[i + 1]));
        }
        assert forall|i: int, j: int| 0 <= i < j < b_rest.len() implies !before(
            #[trigger] b_rest[j],
            #[trigger] b_rest[i],
        ) by {
            assert(!before(b[j + 1], b[i + 1]));
        }
        assert forall|other: spec_fn(T) -> bool| all_tied(before, other) implies (
        #[trigger] a_rest.filter(other)) == b_rest.filter(other) by {
            assert(a.filter(other) == b.filter(other));
            lemma_filter_drop_first(a, other);
            lemma_filter_drop_first(b, other);
        }
        lemma_order_and_ties_fix_the_sequence(before, a_rest, b_rest);
        assert(a =~= seq![a[0]] + a_rest);
        assert(b =~= seq![b[0]] + b_rest);
    }
}

/// The stable sort is the only sequence that holds the items of `s`, is in
/// order, and keeps every class of tied items in the order of `s`.
pub proof fn lemma_stable_sort_is_unique<T>(before: spec_fn(T, T) -> bool, s: Seq<T>, out: Seq<T>)
    requires
        strict_weak_order(before),
        out.to_multiset() == s.to_multiset(),
        ordered(before, out),
        keeps_ties(before, out, s),
    ensures
        out == stable_sorted(before, s),
{
    let sorted = stable_sorted(before, s);
    lemma_sorted_permutes(before, s);
    lemma_sorted_ordered(before, s);
    assert forall|tied: spec_fn(T) -> bool| all_tied(before, tied) implies (#[trigger] out.filter(
        tied,
    )) == sorted.filter(tied) by {
        lemma_sorted_stable(before, tied, s);
        assert(out.filter(tied) == s.filter(tied));
    }
    lemma_order_and_ties_fix_the_sequence(before, out, sorted);
}

/// The order of a key is a strict weak order.
pub proof fn lemma_by_key_strict_weak_order<T>(key: spec_fn(T) -> int)
    ensures
        strict_weak_order(by_key(key)),
{
    let before = by_key(key);
    assert forall|a: T, b: T| #[trigger] before(a, b) implies !before(b, a) by {}
    assert forall|a: T, b: T, c: T| !#[trigger] before(b, a) && !#[trigger] before(
        c,
        b,
    ) implies !before(c, a) by {}
}

/// Sorting by a key gives ascending keys, and the items that share a key
/// come out in the order in which they went in.
pub proof fn lemma_sorted_by_key<T>(key: spec_fn(T) -> int, s: Seq<T>)
    ensures
        ascending(key, stable_sorted(by_key(key), s)),
        forall|k: int| #[trigger]
            with_key(key, stable_sorted(by_key(key), s), k) == with_key(key, s, k),
{
    let before = by_key(key);
    let out = stable_sorted(before, s);
    lemma_by_key_strict_weak_order(key);
    lemma_sorted_ordered(before, s);
    assert forall|i: int, j: int| 0 <= i < j < out.len() implies key(#[trigger] out[i]) <= key(
        #[trigger] out[j],
    ) by {
        assert(!before(out[j], out[i]));
    }
    assert forall|k: int| #[trigger]
        with_key(key, out, k) == with_key(key, s, k) by {
        let tied = |x: T| key(x) == k;
        assert forall|a: T, b: T| #![trigger tied(a), tied(b)] tied(a) && tied(b) implies !before(
            a,
            b,
        ) by {}
        lemma_sorted_stable(before, tied, s);
    }
}

} // verus!
