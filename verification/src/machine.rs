//! The scheduler as a state machine, and the laws that hold of every run of
//! it.
//!
//! A state is what a scheduler holds between two calls. A step is one call:
//! a process is admitted, the head of the queue runs for a quantum, or the
//! next process is chosen under some strict order.

use vstd::prelude::*;
use crate::fakeprocess::FakeProcess;
use crate::queue::{
    can_reschedule, can_run, distinct_numbers, entry_ok, lemma_admitted_well_formed,
    lemma_ran_queue_entries, lemma_ran_queue_well_formed, lemma_rescheduled_entries,
    lemma_rescheduled_well_formed, number_key, ran_queue, readmitted, rescheduled_finished,
    rescheduled_next, rescheduled_queue, switched_queue, ticks_run, well_formed,
};
use crate::queuedprocess::QueuedProcess;
use crate::sorting::{
    by_key, lemma_sorted_by_key, lemma_sorted_permutes, lemma_sorted_same_items, stable_sorted,
};

verus! {

/// What a scheduler holds between two calls.
pub struct Snapshot {
    pub queue: Seq<QueuedProcess>,
    pub finished: Seq<QueuedProcess>,
    pub next: u32,
}

/// One call on a scheduler.
pub enum Step {
    /// A process joins the back of the queue.
    Admit(FakeProcess),
    /// The head of the queue runs for a quantum of so many ticks.
    Run(u32),
    /// The next process is chosen under a strict order, at the cost of so
    /// many ticks for the switch.
    Choose(spec_fn(QueuedProcess, QueuedProcess) -> bool, u32),
}

impl Snapshot {
    /// Every process conserves its work, every number was given out once,
    /// and what is finished has no work left.
    pub open spec fn wf(self) -> bool {
        well_formed(self.queue, self.finished, self.next)
    }

    /// All the entries that the scheduler holds, ready or finished.
    pub open spec fn entries(self) -> Seq<QueuedProcess> {
        self.queue + self.finished
    }

    /// The step can be taken within `u32`; to choose the next process, there
    /// must be one that ran.
    pub open spec fn allows(self, step: Step) -> bool {
        match step {
            Step::Admit(_) => self.next < u32::MAX,
            Step::Run(quantum) => can_run(self.queue, quantum),
            Step::Choose(_, switch_cost) => can_reschedule(self.queue, self.next, switch_cost),
        }
    }

    /// The state after one step.
    pub open spec fn after(self, step: Step) -> Snapshot {
        match step {
            Step::Admit(process) => Snapshot {
                queue: self.queue.push(QueuedProcess { entered_number: self.next, process }),
                finished: self.finished,
                next: (self.next + 1) as u32,
            },
            Step::Run(quantum) => Snapshot {
                queue: ran_queue(self.queue, quantum),
                finished: self.finished,
                next: self.next,
            },
            Step::Choose(before, switch_cost) => Snapshot {
                queue: rescheduled_queue(before, self.queue, self.next, switch_cost),
                finished: rescheduled_finished(self.queue, self.finished),
                next: rescheduled_next(self.queue, self.next) as u32,
            },
        }
    }

    /// The state after a run of steps.
    pub open spec fn after_all(self, steps: Seq<Step>) -> Snapshot
        decreases steps.len(),
    {
        if steps.len() == 0 {
            self
        } else {
            self.after_all(steps.drop_last()).after(steps.last())
        }
    }

    /// Every step of the run can be taken when its turn comes.
    pub open spec fn allows_all(self, steps: Seq<Step>) -> bool
        decreases steps.len(),
    {
        steps.len() == 0 || (self.allows_all(steps.drop_last()) && self.after_all(
            steps.drop_last(),
        ).allows(steps.last()))
    }
}

/// Every process that the run admits conserves its work.
pub open spec fn admits_sound(steps: Seq<Step>) -> bool {
    forall|k: int|
        0 <= k < steps.len() ==> (#[trigger] steps[k] matches Step::Admit(process)
            ==> process.wf())
}

/// Every choice of the run is made first come, first served.
pub open spec fn chooses_first_come(steps: Seq<Step>) -> bool {
    forall|k: int|
        0 <= k < steps.len() ==> (#[trigger] steps[k] matches Step::Choose(before, _) ==> before
            == by_key(number_key()))
}

/// The entries stand in the order of their numbers, each number smaller
/// than the next.
pub open spec fn in_admission_order(queue: Seq<QueuedProcess>) -> bool {
    forall|i: int, j: int|
        #![trigger queue[i], queue[j]]
        0 <= i < j < queue.len() ==> queue[i].entered_number < queue[j].entered_number
}

/// `new_process` is a later state of `old_process`: the same process, with
/// no less work done and no less time waited.
pub open spec fn continues(old_process: FakeProcess, new_process: FakeProcess) -> bool {
    &&& new_process.id == old_process.id
    &&& new_process.priority == old_process.priority
    &&& new_process.quantum_to_run_for == old_process.quantum_to_run_for
    &&& new_process.quantum_ran_for >= old_process.quantum_ran_for
    &&& new_process.time_spent_waiting >= old_process.time_spent_waiting
}

/// `process` was in `state`, or is admitted by one of `steps`, in an earlier
/// state of it.
pub open spec fn stems_from(state: Snapshot, steps: Seq<Step>, process: FakeProcess) -> bool {
    ||| exists|j: int|
        0 <= j < state.entries().len() && continues(
            (#[trigger] state.entries()[j]).process,
            process,
        )
    ||| exists|k: int|
        0 <= k < steps.len() && (#[trigger] steps[k] matches Step::Admit(admitted) && continues(
            admitted,
            process,
        ))
}

/// One step keeps a well-formed state well formed: work is conserved in
/// every process and no number is held twice.
pub proof fn law_step_keeps_well_formed(state: Snapshot, step: Step)
    requires
        state.wf(),
        state.allows(step),
        step matches Step::Admit(process) ==> process.wf(),
    ensures
        state.after(step).wf(),
{
    match step {
        Step::Admit(process) => {
            lemma_admitted_well_formed(
                state.queue,
                state.finished,
                state.next,
                QueuedProcess { entered_number: state.next, process },
            );
        },
        Step::Run(quantum) => {
            lemma_ran_queue_well_formed(state.queue, state.finished, state.next, quantum);
        },
        Step::Choose(before, switch_cost) => {
            lemma_rescheduled_well_formed(
                before,
                state.queue,
                state.finished,
                state.next,
                switch_cost,
            );
        },
    }
}

/// Whatever the run of steps, a well-formed state stays well formed: in
/// every process the work done and the work left add up to the work asked
/// for, and no two entries, ready or finished, hold the same number.
pub proof fn law_run_keeps_well_formed(state: Snapshot, steps: Seq<Step>)
    requires
        state.wf(),
        state.allows_all(steps),
        admits_sound(steps),
    ensures
        state.after_all(steps).wf(),
    decreases steps.len(),
{
    if steps.len() > 0 {
        let earlier = steps.drop_last();
        assert forall|k: int| 0 <= k < earlier.len() implies (#[trigger] earlier[k] matches Step::Admit(
            process,
        ) ==> process.wf()) by {
            assert(earlier[k] == steps[k]);
        }
        law_run_keeps_well_formed(state, earlier);
        law_step_keeps_well_formed(state.after_all(earlier), steps.last());
    }
}

/// After one step every entry, ready or finished, is a later state of an
/// entry that was there before, or is the process that the step admitted:
/// no step takes waiting time or work done away.
pub proof fn law_step_never_lowers_waiting(state: Snapshot, step: Step)
    requires
        state.allows(step),
    ensures
        forall|i: int|
            0 <= i < state.after(step).entries().len() ==> stems_from(
                state,
                seq![step],
                (#[trigger] state.after(step).entries()[i]).process,
            ),
{
    let old_entries = state.entries();
    let new_entries = state.after(step).entries();
    let n = state.queue.len() as int;
    assert forall|i: int| 0 <= i < new_entries.len() implies stems_from(
        state,
        seq![step],
        (#[trigger] new_entries[i]).process,
    ) by {
        let e = new_entries[i];
        match step {
            Step::Admit(process) => {
                if i < n {
                    assert(continues(old_entries[i].process, e.process));
                } else if i == n {
                    assert(seq![step][0] == step);
                    assert(continues(process, e.process));
                } else {
                    assert(continues(old_entries[i - 1].process, e.process));
                }
            },
            Step::Run(quantum) => {
                lemma_ran_queue_entries(state.queue, quantum);
                if i < n {
                    state.queue[i].process.lemma_ticks_for_bounds(quantum);
                    if i > 0 {
                        assert(state.queue.drop_first()[i - 1] == state.queue[i]);
                    }
                    state.queue[0].process.lemma_ticks_for_bounds(quantum);
                }
                assert(continues(old_entries[i].process, e.process));
            },
            Step::Choose(before, switch_cost) => {
                lemma_rescheduled_entries(before, state.queue, state.next, switch_cost);
                let m = state.after(step).queue.len() as int;
                if i < m {
                    if !state.queue[0].process.done() && e == readmitted(
                        state.queue[0],
                        state.next,
                        switch_cost,
                    ) {
                        assert(continues(old_entries[0].process, e.process));
                    } else {
                        let j = choose|j: int|
                            1 <= j < state.queue.len() && e == state.queue[j].waited(switch_cost);
                        assert(state.queue.drop_first()[j - 1] == state.queue[j]);
                        assert(continues(old_entries[j].process, e.process));
                    }
                } else if i - m < state.finished.len() {
                    assert(continues(old_entries[n + (i - m)].process, e.process));
                } else {
                    assert(continues(old_entries[0].process, e.process));
                }
            },
        }
    }
}

/// Among `entries` there is a later state of `process`.
pub open spec fn lives_on(entries: Seq<QueuedProcess>, process: FakeProcess) -> bool {
    exists|i: int| 0 <= i < entries.len() && continues(process, (#[trigger] entries[i]).process)
}

/// One step neither loses nor doubles an entry: every entry that was there
/// is still there, ready or finished, in a later state of it, and the number
/// of entries grows by the one that is admitted and by no other.
pub proof fn law_step_keeps_every_entry(state: Snapshot, step: Step)
    requires
        state.allows(step),
    ensures
        state.after(step).entries().len() == state.entries().len() + (if step is Admit {
            1int
        } else {
            0int
        }),
        forall|j: int|
            0 <= j < state.entries().len() ==> lives_on(
                state.after(step).entries(),
                (#[trigger] state.entries()[j]).process,
            ),
{
    let old_entries = state.entries();
    let new_entries = state.after(step).entries();
    let n = state.queue.len() as int;
    match step {
        Step::Admit(process) => {
            assert forall|j: int| 0 <= j < old_entries.len() implies lives_on(
                new_entries,
                (#[trigger] old_entries[j]).process,
            ) by {
                let i = if j < n { j } else { j + 1 };
                assert(continues(old_entries[j].process, new_entries[i].process));
            }
        },
        Step::Run(quantum) => {
            lemma_ran_queue_entries(state.queue, quantum);
            assert forall|j: int| 0 <= j < old_entries.len() implies lives_on(
                new_entries,
                (#[trigger] old_entries[j]).process,
            ) by {
                if j < n {
                    state.queue[0].process.lemma_ticks_for_bounds(quantum);
                    if j > 0 {
                        assert(state.queue.drop_first()[j - 1] == state.queue[j]);
                    }
                }
                assert(continues(old_entries[j].process, new_entries[j].process));
            }
        },
        Step::Choose(before, switch_cost) => {
            lemma_rescheduled_entries(before, state.queue, state.next, switch_cost);
            let tail = state.queue.drop_first();
            let sorted = stable_sorted(before, tail);
            let switched = switched_queue(before, state.queue, state.next, switch_cost);
            let out = state.after(step).queue;
            let m = out.len() as int;
            lemma_sorted_permutes(before, tail);
            lemma_sorted_same_items(before, tail);
            lemma_sorted_same_items(before, switched);
            assert forall|j: int| 0 <= j < old_entries.len() implies lives_on(
                new_entries,
                (#[trigger] old_entries[j]).process,
            ) by {
                if j == 0 {
                    if state.queue[0].process.done() {
                        let i = m + state.finished.len();
                        assert(continues(old_entries[j].process, new_entries[i].process));
                    } else {
                        let e = readmitted(state.queue[0], state.next, switch_cost);
                        assert(switched[switched.len() - 1] == e);
                        assert(switched.contains(e));
                        assert(out.contains(e));
                        let i = choose|i: int| 0 <= i < out.len() && out[i] == e;
                        assert(continues(old_entries[j].process, new_entries[i].process));
                    }
                } else if j < n {
                    assert(tail[j - 1] == state.queue[j]);
                    assert(tail.contains(state.queue[j]));
                    assert(sorted.contains(state.queue[j]));
                    let k = choose|k: int| 0 <= k < sorted.len() && sorted[k] == state.queue[j];
                    let e = state.queue[j].waited(switch_cost);
                    assert(switched[k] == e);
                    assert(switched.contains(e));
                    assert(out.contains(e));
                    let i = choose|i: int| 0 <= i < out.len() && out[i] == e;
                    assert(continues(old_entries[j].process, new_entries[i].process));
                } else {
                    let i = m + (j - n);
                    assert(continues(old_entries[j].process, new_entries[i].process));
                }
            }
        },
    }
}

/// What one full cycle charges: after a quantum and the choice that follows
/// it, every entry of the queue is the old head, which ran and then paid the
/// switch under a new number, or an entry from behind the head, which waited
/// for as long as the head really ran and then paid the switch.
pub proof fn law_cycle_charges_run_and_switch(
    state: Snapshot,
    quantum: u32,
    before: spec_fn(QueuedProcess, QueuedProcess) -> bool,
    switch_cost: u32,
)
    requires
        state.queue.len() > 0,
    ensures
        forall|i: int|
            0 <= i < state.after(Step::Run(quantum)).after(
                Step::Choose(before, switch_cost),
            ).queue.len() ==> {
                let e = #[trigger] state.after(Step::Run(quantum)).after(
                    Step::Choose(before, switch_cost),
                ).queue[i];
                ||| (!state.queue[0].process.ran(quantum).done() && e == readmitted(
                    state.queue[0].ran(quantum),
                    state.next,
                    switch_cost,
                ))
                ||| exists|j: int|
                    1 <= j < state.queue.len() && e == state.queue[j].waited(
                        ticks_run(state.queue, quantum) as u32,
                    ).waited(switch_cost)
            },
        state.queue[0].process.ran(quantum).done() ==> state.after(Step::Run(quantum)).after(
            Step::Choose(before, switch_cost),
        ).finished == state.finished.push(state.queue[0].ran(quantum)),
{
    let ran = state.after(Step::Run(quantum));
    let out = ran.after(Step::Choose(before, switch_cost)).queue;
    lemma_ran_queue_entries(state.queue, quantum);
    lemma_rescheduled_entries(before, ran.queue, ran.next, switch_cost);
    assert forall|i: int| 0 <= i < out.len() implies {
        let e = #[trigger] out[i];
        ||| (!state.queue[0].process.ran(quantum).done() && e == readmitted(
            state.queue[0].ran(quantum),
            state.next,
            switch_cost,
        ))
        ||| exists|j: int|
            1 <= j < state.queue.len() && e == state.queue[j].waited(
                ticks_run(state.queue, quantum) as u32,
            ).waited(switch_cost)
    } by {
        let e = out[i];
        if !(!ran.queue[0].process.done() && e == readmitted(ran.queue[0], ran.next, switch_cost)) {
            let j = choose|j: int| 1 <= j < ran.queue.len() && e == ran.queue[j].waited(switch_cost);
            assert(ran.queue[j] == state.queue[j].waited(ticks_run(state.queue, quantum) as u32));
        }
    }
}

/// Later states of later states are later states.
pub proof fn lemma_continues_transitive(a: FakeProcess, b: FakeProcess, c: FakeProcess)
    requires
        continues(a, b),
        continues(b, c),
    ensures
        continues(a, c),
{
}

/// Whatever the run of steps, every entry at its end is a later state of an
/// entry of the first state or of a process that the run admitted: the
/// waiting time of a process never falls, and neither does its work done.
pub proof fn law_run_never_lowers_waiting(state: Snapshot, steps: Seq<Step>)
    requires
        state.allows_all(steps),
    ensures
        forall|i: int|
            0 <= i < state.after_all(steps).entries().len() ==> stems_from(
                state,
                steps,
                (#[trigger] state.after_all(steps).entries()[i]).process,
            ),
    decreases steps.len(),
{
    let last_entries = state.after_all(steps).entries();
    if steps.len() == 0 {
        assert forall|i: int| 0 <= i < last_entries.len() implies stems_from(
            state,
            steps,
            (#[trigger] last_entries[i]).process,
        ) by {
            assert(continues(state.entries()[i].process, last_entries[i].process));
        }
    } else {
        let earlier = steps.drop_last();
        let middle = state.after_all(earlier);
        law_run_never_lowers_waiting(state, earlier);
        law_step_never_lowers_waiting(middle, steps.last());
        assert forall|i: int| 0 <= i < last_entries.len() implies stems_from(
            state,
            steps,
            (#[trigger] last_entries[i]).process,
        ) by {
            let p = last_entries[i].process;
            assert(stems_from(middle, seq![steps.last()], p));
            if exists|j: int|
                0 <= j < middle.entries().len() && continues(
                    (#[trigger] middle.entries()[j]).process,
                    p,
                ) {
                let j = choose|j: int|
                    0 <= j < middle.entries().len() && continues(
                        (#[trigger] middle.entries()[j]).process,
                        p,
                    );
                let q = middle.entries()[j].process;
                assert(stems_from(state, earlier, q));
                if exists|j0: int|
                    0 <= j0 < state.entries().len() && continues(
                        (#[trigger] state.entries()[j0]).process,
                        q,
                    ) {
                    let j0 = choose|j0: int|
                        0 <= j0 < state.entries().len() && continues(
                            (#[trigger] state.entries()[j0]).process,
                            q,
                        );
                    lemma_continues_transitive(state.entries()[j0].process, q, p);
                } else {
                    let k = choose|k: int|
                        0 <= k < earlier.len() && (#[trigger] earlier[k] matches Step::Admit(
                            admitted,
                        ) && continues(admitted, q));
                    assert(steps[k] == earlier[k]);
                    match steps[k] {
                        Step::Admit(admitted) => {
                            lemma_continues_transitive(admitted, q, p);
                        },
                        _ => {},
                    }
                }
            } else {
                let k = choose|k: int|
                    0 <= k < 1 && (#[trigger] seq![steps.last()][k] matches Step::Admit(admitted)
                        && continues(admitted, p));
                assert(seq![steps.last()][k] == steps[steps.len() - 1]);
            }
        }
    }
}

/// Under first come, first served, one step keeps the queue in the order of
/// admission, and a choice puts it in that order whatever it was.
pub proof fn law_step_keeps_admission_order(state: Snapshot, step: Step)
    requires
        state.wf(),
        state.allows(step),
        step matches Step::Admit(process) ==> process.wf(),
        step matches Step::Choose(before, _) ==> before == by_key(number_key()),
        step is Choose || in_admission_order(state.queue),
    ensures
        in_admission_order(state.after(step).queue),
{
    let out = state.after(step).queue;
    match step {
        Step::Admit(process) => {
            assert forall|i: int, j: int| 0 <= i < j < out.len() implies (
            #[trigger] out[i]).entered_number < (#[trigger] out[j]).entered_number by {
                assert(entry_ok(state.queue[i], state.next));
                if j < state.queue.len() {
                    assert(state.queue[i].entered_number < state.queue[j].entered_number);
                }
            }
        },
        Step::Run(quantum) => {
            lemma_ran_queue_entries(state.queue, quantum);
            assert forall|i: int, j: int| 0 <= i < j < out.len() implies (
            #[trigger] out[i]).entered_number < (#[trigger] out[j]).entered_number by {
                assert(state.queue[i].entered_number < state.queue[j].entered_number);
            }
        },
        Step::Choose(before, switch_cost) => {
            law_step_keeps_well_formed(state, step);
            lemma_sorted_by_key(
                number_key(),
                switched_queue(before, state.queue, state.next, switch_cost),
            );
            assert forall|i: int, j: int| 0 <= i < j < out.len() implies (
            #[trigger] out[i]).entered_number < (#[trigger] out[j]).entered_number by {
                assert(number_key()(out[i]) <= number_key()(out[j]));
                assert(distinct_numbers()(out[i], out[j]));
            }
        },
    }
}

/// Under first come, first served, whatever the run of steps, an entry that
/// was admitted earlier never stands behind one that was admitted later. An
/// unfinished process that goes back into the queue is admitted anew, under
/// a new number.
pub proof fn law_first_come_keeps_admission_order(state: Snapshot, steps: Seq<Step>)
    requires
        state.wf(),
        in_admission_order(state.queue),
        state.allows_all(steps),
        admits_sound(steps),
        chooses_first_come(steps),
    ensures
        in_admission_order(state.after_all(steps).queue),
    decreases steps.len(),
{
    if steps.len() > 0 {
        let earlier = steps.drop_last();
        assert forall|k: int| 0 <= k < earlier.len() implies (#[trigger] earlier[k] matches Step::Admit(
            process,
        ) ==> process.wf()) by {
            assert(earlier[k] == steps[k]);
        }
        assert forall|k: int| 0 <= k < earlier.len() implies (#[trigger] earlier[k] matches Step::Choose(
            before,
            _,
        ) ==> before == by_key(number_key())) by {
            assert(earlier[k] == steps[k]);
        }
        law_first_come_keeps_admission_order(state, earlier);
        law_run_keeps_well_formed(state, earlier);
        law_step_keeps_admission_order(state.after_all(earlier), steps.last());
    }
}

/// Running a quantum on an empty queue changes nothing.
pub proof fn law_run_on_empty_queue(state: Snapshot, quantum: u32)
    requires
        state.queue.len() == 0,
    ensures
        state.allows(Step::Run(quantum)),
        state.after(Step::Run(quantum)) == state,
{
}

/// Choosing the next process takes the head off the queue and puts it back
/// if and only if it has work left; it joins the finished entries, as it
/// is, if and only if it has none.
pub proof fn law_choice_moves_one_entry(
    state: Snapshot,
    before: spec_fn(QueuedProcess, QueuedProcess) -> bool,
    switch_cost: u32,
)
    requires
        state.queue.len() > 0,
    ensures
        state.queue[0].process.done() ==> {
            &&& state.after(Step::Choose(before, switch_cost)).queue.len() == state.queue.len() - 1
            &&& state.after(Step::Choose(before, switch_cost)).finished == state.finished.push(
                state.queue[0],
            )
        },
        !state.queue[0].process.done() ==> {
            &&& state.after(Step::Choose(before, switch_cost)).queue.len() == state.queue.len()
            &&& state.after(Step::Choose(before, switch_cost)).finished == state.finished
        },
{
    lemma_rescheduled_entries(before, state.queue, state.next, switch_cost);
}

} // verus!
