//! A process as it stands in the ready queue.

use vstd::prelude::*;
use crate::fakeprocess::FakeProcess;

verus! {

/// A process together with the number it was given when it entered the queue.
#[derive(Copy, Clone, Debug, PartialEq, Eq, Structural)]
pub struct QueuedProcess {
    pub entered_number: u32,
    pub process: FakeProcess,
}

impl QueuedProcess {
    /// The entry after its process ran for a quantum of `quantum_run` ticks.
    pub open spec fn ran(&self, quantum_run: u32) -> QueuedProcess {
        QueuedProcess { entered_number: self.entered_number, process: self.process.ran(quantum_run) }
    }

    /// The entry after its process waited `quantum_wait` more ticks.
    pub open spec fn waited(&self, quantum_wait: u32) -> QueuedProcess {
        QueuedProcess {
            entered_number: self.entered_number,
            process: self.process.waited(quantum_wait),
        }
    }

    /// Charges the entry's process `quantum_wait` ticks of waiting.
    pub fn wait(self, quantum_wait: u32) -> (q: QueuedProcess)
        requires
            self.process.time_spent_waiting + quantum_wait <= u32::MAX,
        ensures
            q == self.waited(quantum_wait),
            q.entered_number == self.entered_number,
            q.process.time_spent_waiting == self.process.time_spent_waiting + quantum_wait,
            self.process.wf() ==> q.process.wf(),
    {
        QueuedProcess {
            entered_number: self.entered_number,
            process: self.process.wait(quantum_wait),
        }
    }

    /// Runs the entry's process for one quantum; the second component is the
    /// work that was really done.
    pub fn execute(&self, quantum_run: u32) -> (r: (QueuedProcess, u32))
        requires
            self.process.quantum_ran_for + self.process.ticks_for(quantum_run) <= u32::MAX,
        ensures
            r.0 == self.ran(quantum_run),
            r.1 == self.process.ticks_for(quantum_run),
            r.0.entered_number == self.entered_number,
            self.process.wf() ==> r.0.process.wf(),
    {
        let (process, ran_for) = self.process.execute(quantum_run);
        (QueuedProcess { entered_number: self.entered_number, process }, ran_for)
    }
}

} // verus!
