//! The ready queue as a sequence, and what each step of the scheduler makes
//! of it.

use vstd::prelude::*;
use crate::queuedprocess::QueuedProcess;
use crate::sorting::{
    lemma_sorted_pairwise, lemma_sorted_permutes, lemma_sorted_same_items, pairwise, stable_sorted,
};

verus! {

/// The place `k` of a sequence.
pub open spec fn place(k: usize) -> int {
    k as int
}

/// The first `n` entries of `s`.
pub open spec fn prefix(s: Seq<QueuedProcess>, n: usize) -> Seq<QueuedProcess> {
    s.take(n as int)
}

/// A prefix grows by one entry at a time, up to the whole of `s`.
pub proof fn lemma_prefix_next(s: Seq<QueuedProcess>, n: usize)
    requires
        n < s.len(),
        n < usize::MAX,
    ensures
        prefix(s, (n + 1) as usize).drop_last() == prefix(s, n),
        prefix(s, (n + 1) as usize).last() == s[n as int],
        prefix(s, (n + 1) as usize).len() == n + 1,
{
    assert(prefix(s, (n + 1) as usize).drop_last() =~= prefix(s, n));
}

/// The prefix of full length is `s` itself.
pub proof fn lemma_prefix_all(s: Seq<QueuedProcess>, n: usize)
    requires
        n == s.len(),
    ensures
        prefix(s, n) == s,
{
    assert(prefix(s, n) =~= s);
}

/// The key of first come, first served: the number under which an entry
/// entered the queue.
pub open spec fn number_key() -> spec_fn(QueuedProcess) -> int {
    |e: QueuedProcess| e.entered_number as int
}

/// The key of shortest job next: the work that the process asked for.
pub open spec fn total_work_key() -> spec_fn(QueuedProcess) -> int {
    |e: QueuedProcess| e.process.quantum_to_run_for as int
}

/// The key of shortest remaining time: the work that the process has left.
pub open spec fn work_left_key() -> spec_fn(QueuedProcess) -> int {
    |e: QueuedProcess| e.process.quantum_left as int
}

/// Every entry of `s` charged `ticks` of waiting.
pub open spec fn waited_all(s: Seq<QueuedProcess>, ticks: u32) -> Seq<QueuedProcess> {
    Seq::new(s.len(), |i: int| s[i].waited(ticks))
}

/// Every entry of `s` can be charged `ticks` of waiting within `u32`.
pub open spec fn can_wait_all(s: Seq<QueuedProcess>, ticks: u32) -> bool {
    forall|i: int|
        0 <= i < s.len() ==> (#[trigger] s[i]).process.time_spent_waiting + ticks <= u32::MAX
}

/// The work that a quantum of `quantum` ticks does on the head of `queue`;
/// nothing where the queue is empty.
pub open spec fn ticks_run(queue: Seq<QueuedProcess>, quantum: u32) -> int {
    if queue.len() == 0 {
        0
    } else {
        queue[0].process.ticks_for(quantum)
    }
}

/// The queue after its head ran for a quantum: the head has advanced, and
/// every other entry has waited for as long as the head really ran.
pub open spec fn ran_queue(queue: Seq<QueuedProcess>, quantum: u32) -> Seq<QueuedProcess> {
    if queue.len() == 0 {
        queue
    } else {
        waited_all(queue.drop_first(), ticks_run(queue, quantum) as u32).insert(
            0,
            queue[0].ran(quantum),
        )
    }
}

/// A quantum can be run on `queue` within `u32`: the head's work done and
/// the waiting time of every other entry have room for what the head runs.
pub open spec fn can_run(queue: Seq<QueuedProcess>, quantum: u32) -> bool {
    queue.len() > 0 ==> {
        &&& queue[0].process.quantum_ran_for + ticks_run(queue, quantum) <= u32::MAX
        &&& can_wait_all(queue.drop_first(), ticks_run(queue, quantum) as u32)
    }
}

/// The next process can be chosen within `u32`: there is a head, every entry
/// that stays has room for the switch, and where the head goes back into the
/// queue there is a number left for it.
pub open spec fn can_reschedule(queue: Seq<QueuedProcess>, next: u32, switch_cost: u32) -> bool {
    &&& queue.len() > 0
    &&& can_wait_all(queue.drop_first(), switch_cost)
    &&& !queue[0].process.done() ==> {
        &&& queue[0].process.time_spent_waiting + switch_cost <= u32::MAX
        &&& next < u32::MAX
    }
}

/// The entry under which an unfinished `head` goes back into the queue: it is
/// charged the switch and takes the next free number.
pub open spec fn readmitted(head: QueuedProcess, next: u32, switch_cost: u32) -> QueuedProcess {
    QueuedProcess { entered_number: next, process: head.process.waited(switch_cost) }
}

/// The queue after the switch and before it is put in order for the last
/// time: the entries behind the head, sorted and charged the switch, and
/// behind them the head itself where it has work left.
pub open spec fn switched_queue(
    before: spec_fn(QueuedProcess, QueuedProcess) -> bool,
    queue: Seq<QueuedProcess>,
    next: u32,
    switch_cost: u32,
) -> Seq<QueuedProcess>
    recommends
        queue.len() > 0,
{
    let rest = waited_all(stable_sorted(before, queue.drop_first()), switch_cost);
    if queue[0].process.done() {
        rest
    } else {
        rest.push(readmitted(queue[0], next, switch_cost))
    }
}

/// The queue after the next process was chosen under `before`.
pub open spec fn rescheduled_queue(
    before: spec_fn(QueuedProcess, QueuedProcess) -> bool,
    queue: Seq<QueuedProcess>,
    next: u32,
    switch_cost: u32,
) -> Seq<QueuedProcess>
    recommends
        queue.len() > 0,
{
    stable_sorted(before, switched_queue(before, queue, next, switch_cost))
}

/// The finished entries after the next process was chosen: the head joins
/// them if and only if it has no work left.
pub open spec fn rescheduled_finished(
    queue: Seq<QueuedProcess>,
    finished: Seq<QueuedProcess>,
) -> Seq<QueuedProcess>
    recommends
        queue.len() > 0,
{
    if queue[0].process.done() {
        finished.push(queue[0])
    } else {
        finished
    }
}

/// The next free number after the next process was chosen.
pub open spec fn rescheduled_next(queue: Seq<QueuedProcess>, next: u32) -> int
    recommends
        queue.len() > 0,
{
    if queue[0].process.done() {
        next as int
    } else {
        next + 1
    }
}

/// Two entries carry different numbers.
pub open spec fn distinct_numbers() -> spec_fn(QueuedProcess, QueuedProcess) -> bool {
    |a: QueuedProcess, b: QueuedProcess| a.entered_number != b.entered_number
}

/// The entry conserves its work and its number has been given out.
pub open spec fn entry_ok(e: QueuedProcess, next: u32) -> bool {
    e.process.wf() && e.entered_number < next
}

/// What holds of a scheduler's state at all times: every process conserves
/// its work, every number was given out once, and what is finished has no
/// work left.
pub open spec fn well_formed(
    queue: Seq<QueuedProcess>,
    finished: Seq<QueuedProcess>,
    next: u32,
) -> bool {
    &&& forall|i: int| 0 <= i < queue.len() ==> entry_ok(#[trigger] queue[i], next)
    &&& forall|i: int|
        0 <= i < finished.len() ==> entry_ok(#[trigger] finished[i], next)
            && finished[i].process.done()
    &&& pairwise(distinct_numbers(), queue)
    &&& pairwise(distinct_numbers(), finished)
    &&& forall|i: int, j: int|
        0 <= i < queue.len() && 0 <= j < finished.len() ==> (#[trigger] queue[i]).entered_number
            != (#[trigger] finished[j]).entered_number
}

/// Admitting a process that conserves its work keeps the state well formed.
pub proof fn lemma_admitted_well_formed(
    queue: Seq<QueuedProcess>,
    finished: Seq<QueuedProcess>,
    next: u32,
    entry: QueuedProcess,
)
    requires
        well_formed(queue, finished, next),
        entry.process.wf(),
        entry.entered_number == next,
        next < u32::MAX,
    ensures
        well_formed(queue.push(entry), finished, (next + 1) as u32),
{
    let out = queue.push(entry);
    assert forall|i: int, j: int|
        0 <= i < out.len() && 0 <= j < out.len() && i != j implies distinct_numbers()(
        #[trigger] out[i],
        #[trigger] out[j],
    ) by {
        if i < queue.len() {
            assert(entry_ok(queue[i], next));
        }
        if j < queue.len() {
            assert(entry_ok(queue[j], next));
        }
        if i < queue.len() && j < queue.len() {
            assert(distinct_numbers()(queue[i], queue[j]));
        }
    }
    assert forall|i: int, j: int| 0 <= i < out.len() && 0 <= j < finished.len() implies (
    #[trigger] out[i]).entered_number != (#[trigger] finished[j]).entered_number by {
        assert(entry_ok(finished[j], next));
        if i < queue.len() {
            assert(queue[i].entered_number != finished[j].entered_number);
        }
    }
    assert forall|i: int| 0 <= i < out.len() implies entry_ok(
        #[trigger] out[i],
        (next + 1) as u32,
    ) by {
        if i < queue.len() {
            assert(entry_ok(queue[i], next));
        }
    }
    assert forall|i: int| 0 <= i < finished.len() implies entry_ok(
        #[trigger] finished[i],
        (next + 1) as u32,
    ) && finished[i].process.done() by {
        assert(entry_ok(finished[i], next));
    }
}

/// After a quantum every entry stands where it stood, under its old number,
/// and is the old entry after it ran (the head) or waited (the others).
pub proof fn lemma_ran_queue_entries(queue: Seq<QueuedProcess>, quantum: u32)
    ensures
        ran_queue(queue, quantum).len() == queue.len(),
        queue.len() > 0 ==> ran_queue(queue, quantum)[0] == queue[0].ran(quantum),
        forall|i: int|
            1 <= i < queue.len() ==> #[trigger] ran_queue(queue, quantum)[i] == queue[i].waited(
                ticks_run(queue, quantum) as u32,
            ),
        forall|i: int|
            0 <= i < queue.len() ==> (#[trigger] ran_queue(queue, quantum)[i]).entered_number
                == queue[i].entered_number,
{
    if queue.len() > 0 {
        let out = ran_queue(queue, quantum);
        assert forall|i: int| 1 <= i < queue.len() implies #[trigger] out[i] == queue[i].waited(
            ticks_run(queue, quantum) as u32,
        ) by {
            assert(queue.drop_first()[i - 1] == queue[i]);
        }
    }
}

/// Running a quantum keeps the state well formed.
pub proof fn lemma_ran_queue_well_formed(
    queue: Seq<QueuedProcess>,
    finished: Seq<QueuedProcess>,
    next: u32,
    quantum: u32,
)
    requires
        well_formed(queue, finished, next),
    ensures
        well_formed(ran_queue(queue, quantum), finished, next),
{
    let out = ran_queue(queue, quantum);
    lemma_ran_queue_entries(queue, quantum);
    assert forall|i: int| 0 <= i < out.len() implies entry_ok(#[trigger] out[i], next) by {
        assert(entry_ok(queue[i], next));
        queue[i].process.lemma_steps_keep_wf(quantum, ticks_run(queue, quantum) as u32);
    }
    assert forall|i: int, j: int|
        0 <= i < out.len() && 0 <= j < out.len() && i != j implies distinct_numbers()(
        #[trigger] out[i],
        #[trigger] out[j],
    ) by {
        assert(distinct_numbers()(queue[i], queue[j]));
    }
    assert forall|i: int, j: int| 0 <= i < out.len() && 0 <= j < finished.len() implies (
    #[trigger] out[i]).entered_number != (#[trigger] finished[j]).entered_number by {
        assert(queue[i].entered_number != finished[j].entered_number);
    }
}

/// Every entry of the queue after the switch is the head gone back in under
/// the next free number, or an entry from behind the head; either way it has
/// been charged exactly the switch.
pub proof fn lemma_rescheduled_entries(
    before: spec_fn(QueuedProcess, QueuedProcess) -> bool,
    queue: Seq<QueuedProcess>,
    next: u32,
    switch_cost: u32,
)
    requires
        queue.len() > 0,
    ensures
        rescheduled_queue(before, queue, next, switch_cost).len() == queue.len() - 1 + (if queue[0].process.done() {
            0int
        } else {
            1int
        }),
        forall|i: int|
            0 <= i < rescheduled_queue(before, queue, next, switch_cost).len() ==> {
                let e = #[trigger] rescheduled_queue(before, queue, next, switch_cost)[i];
                ||| (!queue[0].process.done() && e == readmitted(queue[0], next, switch_cost))
                ||| exists|j: int| 1 <= j < queue.len() && e == queue[j].waited(switch_cost)
            },
{
    let tail = queue.drop_first();
    let sorted = stable_sorted(before, tail);
    let switched = switched_queue(before, queue, next, switch_cost);
    let out = rescheduled_queue(before, queue, next, switch_cost);
    lemma_sorted_permutes(before, tail);
    lemma_sorted_same_items(before, tail);
    lemma_sorted_permutes(before, switched);
    lemma_sorted_same_items(before, switched);
    assert forall|i: int| 0 <= i < out.len() implies {
        let e = #[trigger] out[i];
        ||| (!queue[0].process.done() && e == readmitted(queue[0], next, switch_cost))
        ||| exists|j: int| 1 <= j < queue.len() && e == queue[j].waited(switch_cost)
    } by {
        let e = out[i];
        assert(out.contains(e));
        assert(switched.contains(e));
        let m = choose|m: int| 0 <= m < switched.len() && switched[m] == e;
        if m < sorted.len() {
            assert(e == sorted[m].waited(switch_cost));
            assert(sorted.contains(sorted[m]));
            let j = choose|j: int| 0 <= j < tail.len() && tail[j] == sorted[m];
            assert(queue[j + 1] == tail[j]);
            assert(1 <= j + 1 < queue.len() && e == queue[j + 1].waited(switch_cost));
        }
    }
}

/// Choosing the next process keeps the state well formed.
pub proof fn lemma_rescheduled_well_formed(
    before: spec_fn(QueuedProcess, QueuedProcess) -> bool,
    queue: Seq<QueuedProcess>,
    finished: Seq<QueuedProcess>,
    next: u32,
    switch_cost: u32,
)
    requires
        well_formed(queue, finished, next),
        queue.len() > 0,
        !queue[0].process.done() ==> next < u32::MAX,
    ensures
        well_formed(
            rescheduled_queue(before, queue, next, switch_cost),
            rescheduled_finished(queue, finished),
            rescheduled_next(queue, next) as u32,
        ),
{
    let head = queue[0];
    let tail = queue.drop_first();
    let sorted = stable_sorted(before, tail);
    let switched = switched_queue(before, queue, next, switch_cost);
    let out = rescheduled_queue(before, queue, next, switch_cost);
    let done = rescheduled_finished(queue, finished);
    let after = rescheduled_next(queue, next) as u32;
    assert forall|i: int| 0 <= i < tail.len() implies #[trigger] tail[i] == queue[i + 1] by {}
    assert(entry_ok(head, next));
    // the entries behind the head, sorted
    assert(pairwise(distinct_numbers(), tail)) by {
        assert forall|i: int, j: int|
            0 <= i < tail.len() && 0 <= j < tail.len() && i != j implies distinct_numbers()(
            #[trigger] tail[i],
            #[trigger] tail[j],
        ) by {
            assert(distinct_numbers()(queue[i + 1], queue[j + 1]));
        }
    }
    lemma_sorted_pairwise(before, distinct_numbers(), tail);
    lemma_sorted_permutes(before, tail);
    lemma_sorted_same_items(before, tail);
    // charged the switch, and the head behind them
    assert forall|i: int| 0 <= i < sorted.len() implies (exists|j: int|
        1 <= j < queue.len() && queue[j] == #[trigger] sorted[i]) by {
        assert(sorted.contains(sorted[i]));
        let j = choose|j: int| 0 <= j < tail.len() && tail[j] == sorted[i];
        assert(queue[j + 1] == sorted[i]);
    }
    assert forall|i: int| 0 <= i < switched.len() implies entry_ok(#[trigger] switched[i], after)
        && switched[i].entered_number != head.entered_number
        && (forall|k: int|
            0 <= k < finished.len() ==> switched[i].entered_number
                != (#[trigger] finished[k]).entered_number) by {
        if i < sorted.len() {
            let j = choose|j: int| 1 <= j < queue.len() && queue[j] == sorted[i];
            assert(entry_ok(queue[j], next));
            assert(distinct_numbers()(queue[j], queue[0]));
            queue[j].process.lemma_steps_keep_wf(0, switch_cost);
            assert(switched[i] == sorted[i].waited(switch_cost));
            assert forall|k: int| 0 <= k < finished.len() implies switched[i].entered_number != (
            #[trigger] finished[k]).entered_number by {
                assert(queue[j].entered_number != finished[k].entered_number);
            }
        } else {
            head.process.lemma_steps_keep_wf(0, switch_cost);
            assert(switched[i] == readmitted(head, next, switch_cost));
            assert forall|k: int| 0 <= k < finished.len() implies switched[i].entered_number != (
            #[trigger] finished[k]).entered_number by {
                assert(entry_ok(finished[k], next));
            }
        }
    }
    assert(pairwise(distinct_numbers(), switched)) by {
        assert forall|i: int, j: int|
            0 <= i < switched.len() && 0 <= j < switched.len() && i != j implies distinct_numbers()(
            #[trigger] switched[i],
            #[trigger] switched[j],
        ) by {
            if i < sorted.len() && j < sorted.len() {
                assert(distinct_numbers()(sorted[i], sorted[j]));
            } else if i < sorted.len() {
                let m = choose|m: int| 1 <= m < queue.len() && queue[m] == sorted[i];
                assert(entry_ok(queue[m], next));
            } else {
                let m = choose|m: int| 1 <= m < queue.len() && queue[m] == sorted[j];
                assert(entry_ok(queue[m], next));
            }
        }
    }
    // put in order for the last time
    lemma_sorted_pairwise(before, distinct_numbers(), switched);
    lemma_sorted_permutes(before, switched);
    lemma_sorted_same_items(before, switched);
    assert forall|i: int| 0 <= i < out.len() implies (exists|m: int|
        0 <= m < switched.len() && switched[m] == #[trigger] out[i]) by {
        assert(out.contains(out[i]));
    }
    assert forall|i: int| 0 <= i < out.len() implies entry_ok(#[trigger] out[i], after) by {
        let m = choose|m: int| 0 <= m < switched.len() && switched[m] == out[i];
        assert(entry_ok(switched[m], after));
    }
    assert forall|i: int| 0 <= i < done.len() implies entry_ok(#[trigger] done[i], after)
        && done[i].process.done() by {
        if i < finished.len() {
            assert(entry_ok(finished[i], next));
        }
    }
    assert(pairwise(distinct_numbers(), done)) by {
        assert forall|i: int, j: int|
            0 <= i < done.len() && 0 <= j < done.len() && i != j implies distinct_numbers()(
            #[trigger] done[i],
            #[trigger] done[j],
        ) by {
            if i < finished.len() && j < finished.len() {
                assert(distinct_numbers()(finished[i], finished[j]));
            } else if i < finished.len() {
                assert(queue[0].entered_number != finished[i].entered_number);
            } else {
                assert(queue[0].entered_number != finished[j].entered_number);
            }
        }
    }
    assert forall|i: int, j: int| 0 <= i < out.len() && 0 <= j < done.len() implies (
    #[trigger] out[i]).entered_number != (#[trigger] done[j]).entered_number by {
        let m = choose|m: int| 0 <= m < switched.len() && switched[m] == out[i];
        assert(entry_ok(switched[m], after));
        if j < finished.len() {
            assert(switched[m].entered_number != finished[j].entered_number);
        }
    }
}

} // verus!
