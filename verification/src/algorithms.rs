//! The orders in which the ready queue can be kept.

use vstd::prelude::*;
use std::cmp::Ordering;
use crate::comparator::{decides, is_comparator};
use crate::queue::{number_key, total_work_key, work_left_key};
use crate::queuedprocess::QueuedProcess;
use crate::sorting::{by_key, lemma_by_key_strict_weak_order, strict_weak_order};

verus! {

/// How two numbers compare.
pub open spec fn order_of(x: u32, y: u32) -> Ordering {
    if x < y {
        Ordering::Less
    } else if x == y {
        Ordering::Equal
    } else {
        Ordering::Greater
    }
}

fn compare_numbers(x: u32, y: u32) -> (o: Ordering)
    ensures
        o == order_of(x, y),
{
    if x < y {
        Ordering::Less
    } else if x == y {
        Ordering::Equal
    } else {
        Ordering::Greater
    }
}

/// First come, first served: the entry that entered the queue earlier goes
/// first.
pub fn first_come(a: &QueuedProcess, b: &QueuedProcess) -> (o: Ordering)
    ensures
        o == order_of(a.entered_number, b.entered_number),
{
    compare_numbers(a.entered_number, b.entered_number)
}

/// Shortest job next: the entry that asked for less work in all goes first.
pub fn shortest_next(a: &QueuedProcess, b: &QueuedProcess) -> (o: Ordering)
    ensures
        o == order_of(a.process.quantum_to_run_for, b.process.quantum_to_run_for),
{
    compare_numbers(a.process.quantum_to_run_for, b.process.quantum_to_run_for)
}

/// Shortest remaining time: the entry with less work left goes first.
pub fn shortest_remain(a: &QueuedProcess, b: &QueuedProcess) -> (o: Ordering)
    ensures
        o == order_of(a.process.quantum_left, b.process.quantum_left),
{
    compare_numbers(a.process.quantum_left, b.process.quantum_left)
}

/// `first_come` is a comparator, and the order it stands for is that of the
/// entered numbers.
pub proof fn lemma_first_come_order()
    ensures
        is_comparator(first_come),
        decides(first_come, by_key(number_key())),
        strict_weak_order(by_key(number_key())),
{
    lemma_by_key_strict_weak_order(number_key());
}

/// `shortest_next` is a comparator, and the order it stands for is that of
/// the work asked for.
pub proof fn lemma_shortest_next_order()
    ensures
        is_comparator(shortest_next),
        decides(shortest_next, by_key(total_work_key())),
        strict_weak_order(by_key(total_work_key())),
{
    lemma_by_key_strict_weak_order(total_work_key());
}

/// `shortest_remain` is a comparator, and the order it stands for is that of
/// the work left.
pub proof fn lemma_shortest_remain_order()
    ensures
        is_comparator(shortest_remain),
        decides(shortest_remain, by_key(work_left_key())),
        strict_weak_order(by_key(work_left_key())),
{
    lemma_by_key_strict_weak_order(work_left_key());
}

} // verus!
