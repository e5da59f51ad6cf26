//! Whole runs of the scheduler over a fixed workload, and the averages that
//! a run is judged by.
//!
//! A run goes in cycles. In each cycle the process that arrives at that
//! tick, if there is one, is admitted, the head of the queue runs for a
//! quantum, and the next process is chosen. The run ends when the queue is
//! empty at the end of a cycle.

use vstd::prelude::*;
use std::cmp::Ordering;
use crate::comparator::{decides, is_comparator};
use crate::engine::Scheduler;
use crate::fakeprocess::FakeProcess;
use crate::machine::{Snapshot, Step};
use crate::queue::{
    can_reschedule, can_run, lemma_prefix_all, lemma_prefix_next, prefix, ran_queue,
};
use crate::queuedprocess::QueuedProcess;

verus! {

/// The workload: the process that arrives at tick `cpu_cycle`, if any.
pub open spec fn arrival(cpu_cycle: u32) -> Option<FakeProcess> {
    if cpu_cycle == 0 {
        Some(FakeProcess::fresh(1, 60, 1))
    } else if cpu_cycle == 3 {
        Some(FakeProcess::fresh(2, 20, 2))
    } else if cpu_cycle == 5 {
        Some(FakeProcess::fresh(3, 10, 3))
    } else if cpu_cycle == 9 {
        Some(FakeProcess::fresh(4, 70, 4))
    } else if cpu_cycle == 10 {
        Some(FakeProcess::fresh(5, 50, 1))
    } else if cpu_cycle == 12 {
        Some(FakeProcess::fresh(6, 30, 2))
    } else if cpu_cycle == 14 {
        Some(FakeProcess::fresh(7, 40, 3))
    } else if cpu_cycle == 16 {
        Some(FakeProcess::fresh(8, 50, 4))
    } else if cpu_cycle == 17 {
        Some(FakeProcess::fresh(9, 70, 1))
    } else if cpu_cycle == 19 {
        Some(FakeProcess::fresh(10, 20, 2))
    } else {
        None
    }
}

/// The state once the arrival of tick `cpu_cycle` has been admitted.
pub open spec fn admitted(state: Snapshot, cpu_cycle: u32) -> Snapshot {
    match arrival(cpu_cycle) {
        Some(process) => state.after(Step::Admit(process)),
        None => state,
    }
}

/// The cycle of tick `cpu_cycle` can be taken from `state`: each of its
/// steps stays within `u32`, and there is a process to run.
pub open spec fn cycle_allowed(
    state: Snapshot,
    quantum: u32,
    switch_cost: u32,
    cpu_cycle: u32,
) -> bool {
    &&& arrival(cpu_cycle) is Some ==> state.next < u32::MAX
    &&& can_run(admitted(state, cpu_cycle).queue, quantum)
    &&& can_reschedule(
        ran_queue(admitted(state, cpu_cycle).queue, quantum),
        admitted(state, cpu_cycle).next,
        switch_cost,
    )
}

/// The state after the cycle of tick `cpu_cycle`.
pub open spec fn after_cycle(
    state: Snapshot,
    before: spec_fn(QueuedProcess, QueuedProcess) -> bool,
    quantum: u32,
    switch_cost: u32,
    cpu_cycle: u32,
) -> Snapshot {
    admitted(state, cpu_cycle).after(Step::Run(quantum)).after(Step::Choose(before, switch_cost))
}

/// The state after the cycles of the first `cycles` ticks.
pub open spec fn after_cycles(
    state: Snapshot,
    before: spec_fn(QueuedProcess, QueuedProcess) -> bool,
    quantum: u32,
    switch_cost: u32,
    cycles: u32,
) -> Snapshot
    decreases cycles,
{
    if cycles == 0 {
        state
    } else {
        after_cycle(
            after_cycles(state, before, quantum, switch_cost, (cycles - 1) as u32),
            before,
            quantum,
            switch_cost,
            (cycles - 1) as u32,
        )
    }
}

/// The run goes on for `cycles` cycles: each of them can be taken, and
/// after none of the earlier ones the queue was empty.
pub open spec fn runs_for(
    state: Snapshot,
    before: spec_fn(QueuedProcess, QueuedProcess) -> bool,
    quantum: u32,
    switch_cost: u32,
    cycles: u32,
) -> bool {
    forall|m: u32|
        m < cycles ==> {
            &&& cycle_allowed(
                #[trigger] after_cycles(state, before, quantum, switch_cost, m),
                quantum,
                switch_cost,
                m,
            )
            &&& m > 0 ==> after_cycles(state, before, quantum, switch_cost, m).queue.len() > 0
        }
}

/// The run ends after `cycles` cycles in the state `end`, with nothing left
/// to run.
pub open spec fn drains_after(
    state: Snapshot,
    before: spec_fn(QueuedProcess, QueuedProcess) -> bool,
    quantum: u32,
    switch_cost: u32,
    cycles: u32,
    end: Snapshot,
) -> bool {
    &&& cycles > 0
    &&& runs_for(state, before, quantum, switch_cost, cycles)
    &&& end == after_cycles(state, before, quantum, switch_cost, cycles)
    &&& end.queue.len() == 0
}

/// The run goes on for `cycles` cycles and cannot go further: the next
/// cycle cannot be taken, or the ticks have run out.
pub open spec fn stops_after(
    state: Snapshot,
    before: spec_fn(QueuedProcess, QueuedProcess) -> bool,
    quantum: u32,
    switch_cost: u32,
    cycles: u32,
) -> bool {
    &&& runs_for(state, before, quantum, switch_cost, cycles)
    &&& cycles > 0 ==> after_cycles(state, before, quantum, switch_cost, cycles).queue.len() > 0
    &&& cycles == u32::MAX || !cycle_allowed(
        after_cycles(state, before, quantum, switch_cost, cycles),
        quantum,
        switch_cost,
        cycles,
    )
}

/// How a run from `state` ends: in the state `end`, with nothing left to
/// run; or in no state, because it cannot go on.
pub open spec fn ends_in(
    state: Snapshot,
    before: spec_fn(QueuedProcess, QueuedProcess) -> bool,
    quantum: u32,
    switch_cost: u32,
    end: Option<Snapshot>,
) -> bool {
    match end {
        Some(last) => exists|cycles: u32| #[trigger]
            drains_after(state, before, quantum, switch_cost, cycles, last),
        None => exists|cycles: u32| #[trigger]
            stops_after(state, before, quantum, switch_cost, cycles),
    }
}

/// The state that a scheduler holds, if there is a scheduler.
pub open spec fn state_of(scheduler: Option<Scheduler>) -> Option<Snapshot> {
    match scheduler {
        Some(s) => Some(s@),
        None => None,
    }
}

/// The sum of the turnaround times of the entries of `s`.
pub open spec fn total_turnaround(s: Seq<QueuedProcess>) -> int
    decreases s.len(),
{
    if s.len() == 0 {
        0
    } else {
        total_turnaround(s.drop_last()) + s.last().process.turnaround()
    }
}

/// The sum of the waiting times of the entries of `s`.
pub open spec fn total_waiting(s: Seq<QueuedProcess>) -> int
    decreases s.len(),
{
    if s.len() == 0 {
        0
    } else {
        total_waiting(s.drop_last()) + s.last().process.time_spent_waiting
    }
}

/// A run that drains ends in the state in which it drains.
pub proof fn lemma_ends_drained(
    state: Snapshot,
    before: spec_fn(QueuedProcess, QueuedProcess) -> bool,
    quantum: u32,
    switch_cost: u32,
    cycles: u32,
    end: Snapshot,
)
    requires
        drains_after(state, before, quantum, switch_cost, cycles, end),
    ensures
        ends_in(state, before, quantum, switch_cost, Some(end)),
{
    let e = Some(end);
    assert(e matches Some(last) && last == end);
    assert(exists|c: u32| #[trigger] drains_after(state, before, quantum, switch_cost, c, end));
}

/// A run that stops ends in no state.
pub proof fn lemma_ends_stopped(
    state: Snapshot,
    before: spec_fn(QueuedProcess, QueuedProcess) -> bool,
    quantum: u32,
    switch_cost: u32,
    cycles: u32,
)
    requires
        stops_after(state, before, quantum, switch_cost, cycles),
    ensures
        ends_in(state, before, quantum, switch_cost, None),
{
}

/// A run has one end: it cannot drain after two different numbers of
/// cycles or in two different states, and it cannot both drain and stop.
pub proof fn law_run_has_one_end(
    state: Snapshot,
    before: spec_fn(QueuedProcess, QueuedProcess) -> bool,
    quantum: u32,
    switch_cost: u32,
    first: u32,
    first_end: Snapshot,
    second: u32,
    second_end: Snapshot,
)
    requires
        drains_after(state, before, quantum, switch_cost, first, first_end),
    ensures
        drains_after(state, before, quantum, switch_cost, second, second_end) ==> first == second
            && first_end == second_end,
        !stops_after(state, before, quantum, switch_cost, second),
{
    let at_first = after_cycles(state, before, quantum, switch_cost, first);
    let at_second = after_cycles(state, before, quantum, switch_cost, second);
    if drains_after(state, before, quantum, switch_cost, second, second_end) {
        if first < second {
            assert(at_first.queue.len() > 0);
        }
        if second < first {
            assert(at_second.queue.len() > 0);
        }
    }
    if stops_after(state, before, quantum, switch_cost, second) {
        if first < second {
            assert(at_first.queue.len() > 0);
        }
        if second < first {
            assert(cycle_allowed(at_second, quantum, switch_cost, second));
        }
    }
}

proof fn lemma_run_stops<F>(
    sort: F,
    start: Snapshot,
    quantum: u32,
    switch_cost: u32,
    cycles: u32,
    now: Snapshot,
) where F: Fn(&QueuedProcess, &QueuedProcess) -> Ordering
    requires
        forall|before: spec_fn(QueuedProcess, QueuedProcess) -> bool| #[trigger]
            decides(sort, before) ==> now == after_cycles(
                start,
                before,
                quantum,
                switch_cost,
                cycles,
            ) && runs_for(start, before, quantum, switch_cost, cycles),
        cycles > 0 ==> now.queue.len() > 0,
        cycles == u32::MAX || !cycle_allowed(now, quantum, switch_cost, cycles),
    ensures
        forall|before: spec_fn(QueuedProcess, QueuedProcess) -> bool| #[trigger]
            decides(sort, before) ==> ends_in(start, before, quantum, switch_cost, None),
{
    assert forall|before: spec_fn(QueuedProcess, QueuedProcess) -> bool| #[trigger]
        decides(sort, before) implies ends_in(start, before, quantum, switch_cost, None) by {
        lemma_ends_stopped(start, before, quantum, switch_cost, cycles);
    }
}

/// The process that arrives at tick `cpu_cycle`, if any.
pub fn get_process(cpu_cycle: u32) -> (p: Option<FakeProcess>)
    ensures
        p == arrival(cpu_cycle),
{
    match cpu_cycle {
        0 => Some(FakeProcess::new(1, 60, 1)),
        3 => Some(FakeProcess::new(2, 20, 2)),
        5 => Some(FakeProcess::new(3, 10, 3)),
        9 => Some(FakeProcess::new(4, 70, 4)),
        10 => Some(FakeProcess::new(5, 50, 1)),
        12 => Some(FakeProcess::new(6, 30, 2)),
        14 => Some(FakeProcess::new(7, 40, 3)),
        16 => Some(FakeProcess::new(8, 50, 4)),
        17 => Some(FakeProcess::new(9, 70, 1)),
        19 => Some(FakeProcess::new(10, 20, 2)),
        _ => None,
    }
}

/// Runs the workload on `scheduler` until the queue is empty at the end of
/// a cycle, and returns the scheduler as it then stands. Returns `None`
/// where the run cannot go on: a cycle finds nothing to run, a count would
/// leave `u32`, or the ticks run out.
pub fn run_process_on_scheduler<F>(
    scheduler: Scheduler,
    sort: &F,
    quantum_time: u32,
    context_switch: u32,
) -> (r: Option<Scheduler>) where F: Fn(&QueuedProcess, &QueuedProcess) -> Ordering
    requires
        is_comparator(*sort),
    ensures
        forall|before: spec_fn(QueuedProcess, QueuedProcess) -> bool| #[trigger]
            decides(*sort, before) ==> ends_in(
                scheduler@,
                before,
                quantum_time,
                context_switch,
                state_of(r),
            ),
        r matches Some(end) ==> (scheduler.wf() ==> end.wf()),
{
    let ghost start = scheduler@;
    let mut current = scheduler;
    let mut cycle_count: u32 = 0;
    loop
        invariant
            is_comparator(*sort),
            start == scheduler@,
            start.wf() ==> current.wf(),
            cycle_count > 0 ==> current.process_queue@.len() > 0,
            forall|before: spec_fn(QueuedProcess, QueuedProcess) -> bool| #[trigger]
                decides(*sort, before) ==> current@ == after_cycles(
                    start,
                    before,
                    quantum_time,
                    context_switch,
                    cycle_count,
                ) && runs_for(start, before, quantum_time, context_switch, cycle_count),
        decreases u32::MAX - cycle_count,
    {
        let ghost now = current@;
        if cycle_count == u32::MAX {
            proof {
                lemma_run_stops(*sort, start, quantum_time, context_switch, cycle_count, now);
            }
            return None;
        }
        let arrived = get_process(cycle_count);
        let can_admit = match arrived {
            Some(_) => current.can_add_process(),
            None => true,
        };
        if !can_admit {
            proof {
                lemma_run_stops(*sort, start, quantum_time, context_switch, cycle_count, now);
            }
            return None;
        }
        if let Some(process) = arrived {
            current = current.add_process(process);
        }
        assert(current@ == admitted(now, cycle_count));
        if !current.can_execute(quantum_time) {
            proof {
                lemma_run_stops(*sort, start, quantum_time, context_switch, cycle_count, now);
            }
            return None;
        }
        let ran = current.execute(quantum_time);
        if !ran.can_schedule_next(context_switch) {
            proof {
                lemma_run_stops(*sort, start, quantum_time, context_switch, cycle_count, now);
            }
            return None;
        }
        current = ran.schedule_next_by(sort, context_switch);
        let tick = cycle_count;
        cycle_count = cycle_count + 1;
        proof {
            assert forall|before: spec_fn(QueuedProcess, QueuedProcess) -> bool| #[trigger]
                decides(*sort, before) implies current@ == after_cycles(
                start,
                before,
                quantum_time,
                context_switch,
                cycle_count,
            ) && runs_for(start, before, quantum_time, context_switch, cycle_count) by {
                assert(cycle_allowed(now, quantum_time, context_switch, tick));
                assert(current@ == after_cycle(
                    now,
                    before,
                    quantum_time,
                    context_switch,
                    tick,
                ));
            }
        }
        if current.is_queue_empty() {
            proof {
                assert forall|before: spec_fn(QueuedProcess, QueuedProcess) -> bool| #[trigger]
                    decides(*sort, before) implies ends_in(
                    start,
                    before,
                    quantum_time,
                    context_switch,
                    Some(current@),
                ) by {
                    lemma_ends_drained(
                        start,
                        before,
                        quantum_time,
                        context_switch,
                        cycle_count,
                        current@,
                    );
                }
            }
            return Some(current);
        }
    }
}

/// The mean turnaround time of the finished entries, rounded down; `None`
/// where nothing has finished.
pub fn average_turnaround_time(finished: &Vec<QueuedProcess>) -> (mean: Option<u64>)
    ensures
        finished@.len() == 0 ==> mean is None,
        finished@.len() > 0 ==> mean == Some(
            (total_turnaround(finished@) / (finished@.len() as int)) as u64,
        ),
{
    if finished.len() == 0 {
        return None;
    }
    let mut total: u128 = 0;
    let mut i: usize = 0;
    while i < finished.len()
        invariant
            i <= finished@.len(),
            total == total_turnaround(prefix(finished@, i)),
            0 <= total <= i * 0x2_0000_0000,
        decreases finished@.len() - i,
    {
        proof {
            lemma_prefix_next(finished@, i);
        }
        let process = &finished[i].process;
        total = total + (process.time_spent_waiting as u128) + (process.quantum_ran_for as u128);
        i = i + 1;
    }
    proof {
        lemma_prefix_all(finished@, i);
        lemma_mean_bounded(total as int, finished@.len() as int, 0x2_0000_0000);
    }
    Some((total / (finished.len() as u128)) as u64)
}

/// The mean waiting time of the finished entries, rounded down; `None`
/// where nothing has finished.
pub fn average_waiting_time(finished: &Vec<QueuedProcess>) -> (mean: Option<u64>)
    ensures
        finished@.len() == 0 ==> mean is None,
        finished@.len() > 0 ==> mean == Some(
            (total_waiting(finished@) / (finished@.len() as int)) as u64,
        ),
{
    if finished.len() == 0 {
        return None;
    }
    let mut total: u128 = 0;
    let mut i: usize = 0;
    while i < finished.len()
        invariant
            i <= finished@.len(),
            total == total_waiting(prefix(finished@, i)),
            0 <= total <= i * 0x1_0000_0000,
        decreases finished@.len() - i,
    {
        proof {
            lemma_prefix_next(finished@, i);
        }
        total = total + (finished[i].process.time_spent_waiting as u128);
        i = i + 1;
    }
    proof {
        lemma_prefix_all(finished@, i);
        lemma_mean_bounded(total as int, finished@.len() as int, 0x1_0000_0000);
    }
    Some((total / (finished.len() as u128)) as u64)
}

proof fn lemma_mean_bounded(total: int, count: int, bound: int)
    requires
        count > 0,
        0 <= total <= count * bound,
    ensures
        0 <= total / count <= bound,
{
    assert(0 <= total / count <= bound) by (nonlinear_arith)
        requires
            count > 0,
            0 <= total <= count * bound,
    ;
}

} // verus!
