//! The timing model of one simulated process.

use vstd::prelude::*;

verus! {

/// One simulated process: how much work it asked for, how much of it is done,
/// and how long it has been kept waiting.
#[derive(Copy, Clone, Debug, PartialEq, Eq, Structural)]
pub struct FakeProcess {
    pub id: u32,
    pub quantum_left: u32,
    pub quantum_ran_for: u32,
    pub quantum_to_run_for: u32,
    pub time_spent_waiting: u32,
    pub priority: u32,
}

impl FakeProcess {
    /// Time conservation: the work done and the work left add up to the work
    /// that was asked for.
    pub open spec fn wf(&self) -> bool {
        self.quantum_ran_for + self.quantum_left == self.quantum_to_run_for
    }

    /// The work that `quantum_run` ticks could advance at this priority.
    pub open spec fn potential(&self, quantum_run: u32) -> int {
        quantum_run * self.priority
    }

    /// The work that a quantum of `quantum_run` ticks really advances: the
    /// potential, capped by what is left.
    pub open spec fn ticks_for(&self, quantum_run: u32) -> int {
        if self.potential(quantum_run) < self.quantum_left {
            self.potential(quantum_run)
        } else {
            self.quantum_left as int
        }
    }

    /// The record after a quantum of `quantum_run` ticks.
    pub open spec fn ran(&self, quantum_run: u32) -> FakeProcess {
        FakeProcess {
            quantum_left: (self.quantum_left - self.ticks_for(quantum_run)) as u32,
            quantum_ran_for: (self.quantum_ran_for + self.ticks_for(quantum_run)) as u32,
            ..*self
        }
    }

    /// The record after `quantum_wait` more ticks in the queue.
    pub open spec fn waited(&self, quantum_wait: u32) -> FakeProcess {
        FakeProcess {
            time_spent_waiting: (self.time_spent_waiting + quantum_wait) as u32,
            ..*self
        }
    }

    /// A process as it is admitted: all of its work is still to do and it has
    /// not waited.
    pub open spec fn fresh(id: u32, quantum_run_time: u32, priority: u32) -> FakeProcess {
        FakeProcess {
            id,
            quantum_left: quantum_run_time,
            quantum_ran_for: 0,
            quantum_to_run_for: quantum_run_time,
            time_spent_waiting: 0,
            priority,
        }
    }

    /// Whether no work is left.
    pub open spec fn done(&self) -> bool {
        self.quantum_left == 0
    }

    /// Waiting time plus work done.
    pub open spec fn turnaround(&self) -> int {
        self.time_spent_waiting + self.quantum_ran_for
    }

    /// A quantum does some work, and never more than is left.
    pub proof fn lemma_ticks_for_bounds(&self, quantum_run: u32)
        ensures
            0 <= self.ticks_for(quantum_run) <= self.quantum_left,
            self.ticks_for(quantum_run) <= self.potential(quantum_run),
    {
        assert(0 <= quantum_run * self.priority) by (nonlinear_arith);
    }

    /// Running keeps the work conserved, and so does waiting.
    pub proof fn lemma_steps_keep_wf(&self, quantum_run: u32, quantum_wait: u32)
        requires
            self.wf(),
        ensures
            self.ran(quantum_run).wf(),
            self.waited(quantum_wait).wf(),
    {
        self.lemma_ticks_for_bounds(quantum_run);
    }

    /// A fresh process: all of its work is still to do and it has not waited.
    pub fn new(id: u32, quantum_run_time: u32, priority: u32) -> (p: FakeProcess)
        ensures
            p == FakeProcess::fresh(id, quantum_run_time, priority),
            p.id == id,
            p.quantum_left == quantum_run_time,
            p.quantum_ran_for == 0,
            p.quantum_to_run_for == quantum_run_time,
            p.time_spent_waiting == 0,
            p.priority == priority,
            p.wf(),
    {
        FakeProcess {
            id,
            quantum_left: quantum_run_time,
            quantum_ran_for: 0,
            quantum_to_run_for: quantum_run_time,
            time_spent_waiting: 0,
            priority,
        }
    }

    /// The work that a quantum of `quantum_run` ticks would really do.
    pub fn work_in(&self, quantum_run: u32) -> (ticks: u32)
        ensures
            ticks == self.ticks_for(quantum_run),
            ticks <= self.quantum_left,
    {
        assert(quantum_run * self.priority <= 0xffff_ffff * 0xffff_ffff) by (nonlinear_arith)
            requires
                quantum_run <= 0xffff_ffff,
                self.priority <= 0xffff_ffff,
        ;
        let could_run_for: u64 = (quantum_run as u64) * (self.priority as u64);
        if (self.quantum_left as u64) > could_run_for {
            could_run_for as u32
        } else {
            self.quantum_left
        }
    }

    /// Whether `execute` can count the work of such a quantum within `u32`.
    /// It always can where the work is conserved.
    pub fn can_execute(&self, quantum_run: u32) -> (b: bool)
        ensures
            b == (self.quantum_ran_for + self.ticks_for(quantum_run) <= u32::MAX),
            self.wf() ==> b,
    {
        self.quantum_ran_for <= u32::MAX - self.work_in(quantum_run)
    }

    /// Whether `wait` can count so many more ticks within `u32`.
    pub fn can_wait(&self, quantum_wait: u32) -> (b: bool)
        ensures
            b == (self.time_spent_waiting + quantum_wait <= u32::MAX),
    {
        self.time_spent_waiting <= u32::MAX - quantum_wait
    }

    /// Whether the turnaround time fits in `u32`.
    pub fn can_get_turnaround_time(&self) -> (b: bool)
        ensures
            b == (self.turnaround() <= u32::MAX),
    {
        self.time_spent_waiting <= u32::MAX - self.quantum_ran_for
    }

    /// Runs the process for one quantum and returns the new record together
    /// with the work that was really done, which is never more than was left.
    pub fn execute(&self, quantum_run: u32) -> (r: (FakeProcess, u32))
        requires
            self.quantum_ran_for + self.ticks_for(quantum_run) <= u32::MAX,
        ensures
            r.1 == self.ticks_for(quantum_run),
            r.0 == self.ran(quantum_run),
            r.0.quantum_left == self.quantum_left - r.1,
            r.0.quantum_ran_for == self.quantum_ran_for + r.1,
            r.0.quantum_ran_for >= self.quantum_ran_for,
            r.0.time_spent_waiting == self.time_spent_waiting,
            r.0.turnaround() == self.turnaround() + r.1,
            self.wf() ==> r.0.wf(),
    {
        let ran_for: u32 = self.work_in(quantum_run);
        (
            FakeProcess {
                id: self.id,
                quantum_left: self.quantum_left - ran_for,
                quantum_ran_for: self.quantum_ran_for + ran_for,
                quantum_to_run_for: self.quantum_to_run_for,
                time_spent_waiting: self.time_spent_waiting,
                priority: self.priority,
            },
            ran_for,
        )
    }

    /// Charges the process `quantum_wait` ticks of waiting.
    pub fn wait(&self, quantum_wait: u32) -> (p: FakeProcess)
        requires
            self.time_spent_waiting + quantum_wait <= u32::MAX,
        ensures
            p == self.waited(quantum_wait),
            p.time_spent_waiting == self.time_spent_waiting + quantum_wait,
            p.time_spent_waiting >= self.time_spent_waiting,
            p.turnaround() == self.turnaround() + quantum_wait,
            self.wf() ==> p.wf(),
    {
        FakeProcess {
            id: self.id,
            quantum_left: self.quantum_left,
            quantum_ran_for: self.quantum_ran_for,
            quantum_to_run_for: self.quantum_to_run_for,
            time_spent_waiting: self.time_spent_waiting + quantum_wait,
            priority: self.priority,
        }
    }

    /// Whether the process has no work left.
    pub fn is_done(&self) -> (b: bool)
        ensures
            b == self.done(),
    {
        self.quantum_left == 0
    }

    /// The time from admission until now: waiting time plus work done.
    pub fn get_turnaround_time(&self) -> (t: u32)
        requires
            self.turnaround() <= u32::MAX,
        ensures
            t == self.turnaround(),
    {
        self.time_spent_waiting + self.quantum_ran_for
    }
}

} // verus!
