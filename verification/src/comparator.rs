//! Comparators: the strict order that one stands for, and sorting under it.
//!
//! A comparator is any function from two entries to an `Ordering`. Only the
//! answer `Less` counts: it says that the first entry must come ahead of the
//! second. Nothing is assumed of a comparator beyond that it can be asked
//! about every two entries and that its answer depends on them alone; what
//! is proved of a sorted queue is proved for whatever order it decides.

use vstd::prelude::*;
use std::cmp::Ordering;
use crate::queue::{lemma_prefix_all, lemma_prefix_next, place, prefix};
use crate::queuedprocess::QueuedProcess;
use crate::sorting::{
    all_tied, insertion_point, keeps_ties, lemma_insertion_point_is, lemma_sorted_ordered,
    lemma_sorted_permutes, lemma_sorted_stable, ordered, stable_sorted, strict_weak_order,
};

verus! {

/// The strict order that a comparator stands for: `a` is before `b` where the
/// comparator answers `Less`.
pub open spec fn precedes_of<F>(compare: F) -> spec_fn(QueuedProcess, QueuedProcess) -> bool where
    F: Fn(&QueuedProcess, &QueuedProcess) -> Ordering,
 {
    |a: QueuedProcess, b: QueuedProcess| call_ensures(compare, (&a, &b), Ordering::Less)
}

/// `compare` decides the strict order `before`: whenever it is asked about
/// two entries, it answers `Less` if and only if the first is before the
/// second.
pub open spec fn decides<F>(
    compare: F,
    before: spec_fn(QueuedProcess, QueuedProcess) -> bool,
) -> bool where F: Fn(&QueuedProcess, &QueuedProcess) -> Ordering {
    forall|a: QueuedProcess, b: QueuedProcess, o: Ordering| #[trigger]
        call_ensures(compare, (&a, &b), o) ==> (o == Ordering::Less <==> before(a, b))
}

/// `compare` can be asked about every two entries, and whether it answers
/// `Less` depends on the entries alone.
pub open spec fn is_comparator<F>(compare: F) -> bool where
    F: Fn(&QueuedProcess, &QueuedProcess) -> Ordering,
 {
    &&& forall|a: QueuedProcess, b: QueuedProcess| #[trigger] call_requires(compare, (&a, &b))
    &&& decides(compare, precedes_of(compare))
}

fn find_place<F>(sorted: &Vec<QueuedProcess>, compare: &F, x: &QueuedProcess) -> (k: usize) where
    F: Fn(&QueuedProcess, &QueuedProcess) -> Ordering,

    requires
        is_comparator(*compare),
    ensures
        k <= sorted@.len(),
        forall|before: spec_fn(QueuedProcess, QueuedProcess) -> bool| #[trigger]
            decides(*compare, before) ==> k == insertion_point(before, sorted@, *x),
{
    let mut k: usize = sorted.len();
    while k > 0
        invariant
            k <= sorted@.len(),
            is_comparator(*compare),
            forall|before: spec_fn(QueuedProcess, QueuedProcess) -> bool, j: int|
                #![trigger decides(*compare, before), sorted@[j]]
                decides(*compare, before) && k <= j < sorted@.len() ==> before(*x, sorted@[j]),
        ensures
            k <= sorted@.len(),
            forall|before: spec_fn(QueuedProcess, QueuedProcess) -> bool, j: int|
                #![trigger decides(*compare, before), sorted@[j]]
                decides(*compare, before) && k <= j < sorted@.len() ==> before(*x, sorted@[j]),
            forall|before: spec_fn(QueuedProcess, QueuedProcess) -> bool| #[trigger]
                decides(*compare, before) && k > 0 ==> !before(*x, sorted@[k - 1]),
        decreases k,
    {
        let o = compare(x, &sorted[k - 1]);
        match o {
            Ordering::Less => {
                k = k - 1;
            },
            _ => {
                break ;
            },
        }
    }
    proof {
        assert forall|before: spec_fn(QueuedProcess, QueuedProcess) -> bool| #[trigger]
            decides(*compare, before) implies k == insertion_point(before, sorted@, *x) by {
            lemma_insertion_point_is(before, sorted@, *x, place(k));
        }
    }
    k
}

/// Sorts `queue` under `compare`, keeping tied entries in the order in which
/// they stood. Whatever strict order `compare` decides, the result is the
/// stable sort of `queue` under it: it holds the entries of `queue`, keeps
/// every class of tied entries in its order and, under a strict weak order,
/// is in order.
pub fn sort_queue<F>(queue: Vec<QueuedProcess>, compare: &F) -> (sorted: Vec<QueuedProcess>) where
    F: Fn(&QueuedProcess, &QueuedProcess) -> Ordering,

    requires
        is_comparator(*compare),
    ensures
        forall|before: spec_fn(QueuedProcess, QueuedProcess) -> bool| #[trigger]
            decides(*compare, before) ==> sorted@ == stable_sorted(before, queue@),
        sorted@ == stable_sorted(precedes_of(*compare), queue@),
        sorted@.len() == queue@.len(),
        sorted@.to_multiset() == queue@.to_multiset(),
        forall|before: spec_fn(QueuedProcess, QueuedProcess) -> bool|
            #![trigger decides(*compare, before)]
            decides(*compare, before) && strict_weak_order(before) ==> ordered(before, sorted@),
        forall|before: spec_fn(QueuedProcess, QueuedProcess) -> bool| #[trigger]
            decides(*compare, before) ==> keeps_ties(before, sorted@, queue@),
{
    let mut sorted: Vec<QueuedProcess> = Vec::new();
    let mut i: usize = 0;
    while i < queue.len()
        invariant
            i <= queue@.len(),
            is_comparator(*compare),
            forall|before: spec_fn(QueuedProcess, QueuedProcess) -> bool| #[trigger]
                decides(*compare, before) ==> sorted@ == stable_sorted(
                    before,
                    prefix(queue@, i),
                ),
        decreases queue@.len() - i,
    {
        let x = queue[i];
        let k = find_place(&sorted, compare, &x);
        sorted.insert(k, x);
        proof {
            lemma_prefix_next(queue@, i);
        }
        i = i + 1;
    }
    proof {
        lemma_prefix_all(queue@, i);
        lemma_sorted_permutes(precedes_of(*compare), queue@);
        assert forall|before: spec_fn(QueuedProcess, QueuedProcess) -> bool|
            #![trigger decides(*compare, before)]
            decides(*compare, before) && strict_weak_order(before) implies ordered(
            before,
            sorted@,
        ) by {
            lemma_sorted_ordered(before, queue@);
        }
        assert forall|before: spec_fn(QueuedProcess, QueuedProcess) -> bool| #[trigger]
            decides(*compare, before) implies keeps_ties(before, sorted@, queue@) by {
            assert forall|tied: spec_fn(QueuedProcess) -> bool|
                all_tied(before, tied) implies (#[trigger] sorted@.filter(tied)) == queue@.filter(
                tied,
            ) by {
                lemma_sorted_stable(before, tied, queue@);
            }
        }
    }
    sorted
}

} // verus!
