//! The scheduler: a ready queue, the processes that have finished, and the
//! steps that lead from one state to the next.
//!
//! Running a quantum and choosing the next process are two steps. The first
//! charges every entry behind the head the ticks that the head really ran.
//! The second charges the switch to every entry that stays in the queue,
//! the head included where it has work left; a head that has finished
//! leaves as it is and pays nothing.

use vstd::prelude::*;
use std::cmp::Ordering;
use crate::fakeprocess::FakeProcess;
use crate::machine::{Snapshot, Step};
use crate::queuedprocess::QueuedProcess;
use crate::comparator::{decides, is_comparator, precedes_of, sort_queue};
use crate::queue::{
    can_reschedule, can_run, can_wait_all, lemma_admitted_well_formed, lemma_ran_queue_entries,
    lemma_ran_queue_well_formed, lemma_rescheduled_entries, lemma_rescheduled_well_formed,
    ran_queue, rescheduled_finished, rescheduled_next, waited_all,
};
use crate::sorting::{lemma_sorted_ordered, lemma_sorted_same_items, ordered, strict_weak_order};

verus! {

/// `later` is what choosing the next process under `compare`, at the cost
/// of `switch_cost` ticks, makes of `earlier`.
///
/// Whatever strict order `compare` decides, `later` is the state after that
/// choice: the entries behind the head sorted and charged the switch, the
/// head behind them under the next number if it has work left, and all of
/// it sorted once more, tied entries staying as they stood. The head joins
/// the finished entries, as it is, if and only if it has no work left. Under
/// a strict weak order the new queue is in order. A well-formed state stays
/// well formed.
pub open spec fn chooses_next<F>(
    compare: F,
    earlier: Snapshot,
    switch_cost: u32,
    later: Snapshot,
) -> bool where F: Fn(&QueuedProcess, &QueuedProcess) -> Ordering {
    &&& forall|before: spec_fn(QueuedProcess, QueuedProcess) -> bool| #[trigger]
        decides(compare, before) ==> later == earlier.after(Step::Choose(before, switch_cost))
    &&& later.finished == rescheduled_finished(earlier.queue, earlier.finished)
    &&& later.next == rescheduled_next(earlier.queue, earlier.next)
    &&& later.queue.len() == earlier.queue.len() - 1 + (if earlier.queue[0].process.done() {
        0int
    } else {
        1int
    })
    &&& forall|before: spec_fn(QueuedProcess, QueuedProcess) -> bool|
        #![trigger decides(compare, before)]
        decides(compare, before) && strict_weak_order(before) ==> ordered(before, later.queue)
    &&& earlier.wf() ==> later.wf()
}

fn wait_all(queue: Vec<QueuedProcess>, ticks: u32) -> (waited: Vec<QueuedProcess>)
    requires
        can_wait_all(queue@, ticks),
    ensures
        waited@ == waited_all(queue@, ticks),
{
    let mut waited: Vec<QueuedProcess> = Vec::new();
    let mut i: usize = 0;
    while i < queue.len()
        invariant
            i <= queue@.len(),
            can_wait_all(queue@, ticks),
            waited@.len() == i,
            forall|j: int| 0 <= j < i ==> #[trigger] waited@[j] == queue@[j].waited(ticks),
        decreases queue@.len() - i,
    {
        waited.push(queue[i].wait(ticks));
        i = i + 1;
    }
    assert(waited@ =~= waited_all(queue@, ticks));
    waited
}

fn all_can_wait(queue: &Vec<QueuedProcess>, from: usize, ticks: u32) -> (b: bool)
    requires
        from <= queue@.len(),
    ensures
        b == (forall|i: int|
            from <= i < queue@.len() ==> (#[trigger] queue@[i]).process.time_spent_waiting + ticks
                <= u32::MAX),
{
    let mut i: usize = from;
    while i < queue.len()
        invariant
            from <= i <= queue@.len(),
            forall|j: int|
                from <= j < i ==> (#[trigger] queue@[j]).process.time_spent_waiting + ticks
                    <= u32::MAX,
        decreases queue@.len() - i,
    {
        if !queue[i].process.can_wait(ticks) {
            return false;
        }
        i = i + 1;
    }
    true
}

proof fn lemma_can_wait_behind_head(queue: Seq<QueuedProcess>, ticks: u32)
    requires
        queue.len() > 0,
    ensures
        can_wait_all(queue.drop_first(), ticks) <==> (forall|i: int|
            1 <= i < queue.len() ==> (#[trigger] queue[i]).process.time_spent_waiting + ticks
                <= u32::MAX),
{
    let tail = queue.drop_first();
    if can_wait_all(tail, ticks) {
        assert forall|i: int| 1 <= i < queue.len() implies (
        #[trigger] queue[i]).process.time_spent_waiting + ticks <= u32::MAX by {
            assert(tail[i - 1] == queue[i]);
        }
    }
    if forall|i: int|
        1 <= i < queue.len() ==> (#[trigger] queue[i]).process.time_spent_waiting + ticks
            <= u32::MAX {
        assert forall|i: int| 0 <= i < tail.len() implies (
        #[trigger] tail[i]).process.time_spent_waiting + ticks <= u32::MAX by {
            assert(tail[i] == queue[i + 1]);
        }
    }
}

/// A scheduler between two quanta: the ready queue, whose first entry is the
/// one that runs next, and the processes that have finished, in the order in
/// which they did.
pub struct Scheduler {
    pub process_queue: Vec<QueuedProcess>,
    pub finished_processes: Vec<QueuedProcess>,
    /// The number that the next entry gets.
    pub next_entered_number: u32,
}

/// A scheduler whose first entry has just run and still heads the queue.
pub struct RanScheduler {
    pub scheduler: Scheduler,
}

impl View for Scheduler {
    type V = Snapshot;

    /// The state that the scheduler holds.
    open spec fn view(&self) -> Snapshot {
        Snapshot {
            queue: self.process_queue@,
            finished: self.finished_processes@,
            next: self.next_entered_number,
        }
    }
}

impl Scheduler {
    /// Every process conserves its work, every number was given out once, and
    /// what is finished has no work left.
    pub open spec fn wf(&self) -> bool {
        self@.wf()
    }

    /// A scheduler with nothing to run; the first entry will get number 1.
    pub fn new() -> (s: Scheduler)
        ensures
            s.process_queue@.len() == 0,
            s.finished_processes@.len() == 0,
            s.next_entered_number == 1,
            s.wf(),
    {
        Scheduler {
            process_queue: Vec::new(),
            finished_processes: Vec::new(),
            next_entered_number: 1,
        }
    }

    /// Whether a number is left for one more entry.
    pub fn can_add_process(&self) -> (b: bool)
        ensures
            b == (self.next_entered_number < u32::MAX),
    {
        self.next_entered_number < u32::MAX
    }

    /// Whether `execute` can count such a quantum within `u32`: the work
    /// done by the first entry and the waiting time of the others.
    pub fn can_execute(&self, cpu_cycle_quantum_usage: u32) -> (b: bool)
        ensures
            b == can_run(self.process_queue@, cpu_cycle_quantum_usage),
    {
        if self.process_queue.len() == 0 {
            return true;
        }
        let ticks = self.process_queue[0].process.work_in(cpu_cycle_quantum_usage);
        proof {
            lemma_can_wait_behind_head(self.process_queue@, ticks);
        }
        self.process_queue[0].process.can_execute(cpu_cycle_quantum_usage) && all_can_wait(
            &self.process_queue,
            1,
            ticks,
        )
    }

    /// Puts `proc` at the back of the queue under the next free number.
    pub fn add_process(self, proc: FakeProcess) -> (s: Scheduler)
        requires
            self.next_entered_number < u32::MAX,
        ensures
            s@ == self@.after(Step::Admit(proc)),
            s.process_queue@ == self.process_queue@.push(
                (QueuedProcess { entered_number: self.next_entered_number, process: proc }),
            ),
            s.finished_processes@ == self.finished_processes@,
            s.next_entered_number == self.next_entered_number + 1,
            self.wf() && proc.wf() ==> s.wf(),
    {
        let entry = QueuedProcess { entered_number: self.next_entered_number, process: proc };
        proof {
            if self.wf() && proc.wf() {
                lemma_admitted_well_formed(
                    self.process_queue@,
                    self.finished_processes@,
                    self.next_entered_number,
                    entry,
                );
            }
        }
        let mut process_queue = self.process_queue;
        process_queue.push(entry);
        Scheduler {
            process_queue,
            finished_processes: self.finished_processes,
            next_entered_number: self.next_entered_number + 1,
        }
    }

    /// Runs the first entry for one quantum. Every other entry waits for as
    /// long as the first one really ran, which is less than the quantum where
    /// it finishes early. The order of the queue stays as it is, and an empty
    /// queue stays empty.
    pub fn execute(self, cpu_cycle_quantum_usage: u32) -> (r: RanScheduler)
        requires
            can_run(self.process_queue@, cpu_cycle_quantum_usage),
        ensures
            r.scheduler@ == self@.after(Step::Run(cpu_cycle_quantum_usage)),
            r.scheduler.process_queue@ == ran_queue(self.process_queue@, cpu_cycle_quantum_usage),
            r.scheduler.process_queue@.len() == self.process_queue@.len(),
            r.scheduler.finished_processes@ == self.finished_processes@,
            r.scheduler.next_entered_number == self.next_entered_number,
            self.process_queue@.len() == 0 ==> r.scheduler == self,
            self.wf() ==> r.scheduler.wf(),
    {
        if self.process_queue.len() == 0 {
            return RanScheduler { scheduler: self };
        }
        proof {
            lemma_ran_queue_entries(self.process_queue@, cpu_cycle_quantum_usage);
            if self.wf() {
                lemma_ran_queue_well_formed(
                    self.process_queue@,
                    self.finished_processes@,
                    self.next_entered_number,
                    cpu_cycle_quantum_usage,
                );
            }
            self.process_queue@[0].process.lemma_ticks_for_bounds(cpu_cycle_quantum_usage);
        }
        let ghost before = self.process_queue@;
        let mut rest = self.process_queue;
        let head = rest.remove(0);
        assert(rest@ =~= before.drop_first());
        let (head, ran_for) = head.execute(cpu_cycle_quantum_usage);
        let mut process_queue = wait_all(rest, ran_for);
        process_queue.insert(0, head);
        RanScheduler {
            scheduler: Scheduler {
                process_queue,
                finished_processes: self.finished_processes,
                next_entered_number: self.next_entered_number,
            },
        }
    }

    /// The entry that runs next, if there is one.
    pub fn scheduled_process(&self) -> (p: Option<&QueuedProcess>)
        ensures
            self.process_queue@.len() == 0 ==> p.is_none(),
            self.process_queue@.len() > 0 ==> p == Some(&self.process_queue@[0]),
    {
        if self.process_queue.len() == 0 {
            None
        } else {
            Some(&self.process_queue[0])
        }
    }

    /// Whether nothing is left to run.
    pub fn is_queue_empty(&self) -> (b: bool)
        ensures
            b == (self.process_queue@.len() == 0),
    {
        self.process_queue.len() == 0
    }
}

impl RanScheduler {
    /// Chooses the process that runs next. The entry that just ran leaves the
    /// head of the queue; the others are put in the order of `compare` and
    /// charged the switch. An entry that has no work left joins the finished
    /// ones as it is; one that has work left is charged the switch too and
    /// goes back into the queue under a new number. At the end the whole
    /// queue is put in the order of `compare`, tied entries staying as they
    /// stood.
    pub fn schedule_next<F>(self, compare: F, context_switch_cost: u32) -> (s: Scheduler) where
        F: Fn(&QueuedProcess, &QueuedProcess) -> Ordering,

        requires
            is_comparator(compare),
            can_reschedule(
                self.scheduler.process_queue@,
                self.scheduler.next_entered_number,
                context_switch_cost,
            ),
        ensures
            chooses_next(compare, self.scheduler@, context_switch_cost, s@),
    {
        self.schedule_next_by(&compare, context_switch_cost)
    }

    /// Does what `schedule_next` does, under a comparator that the caller
    /// keeps for the next time.
    pub fn schedule_next_by<F>(self, compare: &F, context_switch_cost: u32) -> (s: Scheduler) where
        F: Fn(&QueuedProcess, &QueuedProcess) -> Ordering,

        requires
            is_comparator(*compare),
            can_reschedule(
                self.scheduler.process_queue@,
                self.scheduler.next_entered_number,
                context_switch_cost,
            ),
        ensures
            chooses_next(*compare, self.scheduler@, context_switch_cost, s@),
    {
        let ghost before = self.scheduler.process_queue@;
        let ghost order = precedes_of(*compare);
        proof {
            lemma_rescheduled_entries(
                order,
                before,
                self.scheduler.next_entered_number,
                context_switch_cost,
            );
            if self.scheduler.wf() {
                lemma_rescheduled_well_formed(
                    order,
                    before,
                    self.scheduler.finished_processes@,
                    self.scheduler.next_entered_number,
                    context_switch_cost,
                );
            }
        }
        let mut queue = self.scheduler.process_queue;
        let mut finished_processes = self.scheduler.finished_processes;
        let mut next_entered_number = self.scheduler.next_entered_number;
        let scheduled = queue.remove(0);
        assert(queue@ =~= before.drop_first());
        let queue = sort_queue(queue, compare);
        proof {
            lemma_sorted_same_items(order, before.drop_first());
            assert forall|i: int| 0 <= i < queue@.len() implies (
            #[trigger] queue@[i]).process.time_spent_waiting + context_switch_cost
                <= u32::MAX by {
                assert(queue@.contains(queue@[i]));
            }
        }
        let mut queue = wait_all(queue, context_switch_cost);
        if scheduled.process.is_done() {
            finished_processes.push(scheduled);
        } else {
            queue.push(
                QueuedProcess {
                    entered_number: next_entered_number,
                    process: scheduled.process.wait(context_switch_cost),
                },
            );
            next_entered_number = next_entered_number + 1;
        }
        let process_queue = sort_queue(queue, compare);
        proof {
            assert forall|before: spec_fn(QueuedProcess, QueuedProcess) -> bool| #[trigger]
                decides(*compare, before) && strict_weak_order(before) implies ordered(
                before,
                process_queue@,
            ) by {
                lemma_sorted_ordered(before, queue@);
            }
        }
        Scheduler { process_queue, finished_processes, next_entered_number }
    }

    /// Whether `schedule_next` can be called: there is an entry that ran,
    /// every entry that stays can be charged the switch within `u32`, and a
    /// number is left where the first entry goes back into the queue.
    pub fn can_schedule_next(&self, context_switch_cost: u32) -> (b: bool)
        ensures
            b == can_reschedule(
                self.scheduler.process_queue@,
                self.scheduler.next_entered_number,
                context_switch_cost,
            ),
    {
        if self.scheduler.process_queue.len() == 0 {
            return false;
        }
        proof {
            lemma_can_wait_behind_head(self.scheduler.process_queue@, context_switch_cost);
        }
        let head = &self.scheduler.process_queue[0];
        let head_fits = head.process.is_done() || (head.process.can_wait(context_switch_cost)
            && self.scheduler.can_add_process());
        head_fits && all_can_wait(&self.scheduler.process_queue, 1, context_switch_cost)
    }

    /// The entry that has just run, if there is one.
    pub fn ran_process(&self) -> (p: Option<&QueuedProcess>)
        ensures
            self.scheduler.process_queue@.len() == 0 ==> p.is_none(),
            self.scheduler.process_queue@.len() > 0 ==> p == Some(
                &self.scheduler.process_queue@[0],
            ),
    {
        self.scheduler.scheduled_process()
    }
}

} // verus!
