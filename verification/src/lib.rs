//! A preemptive CPU scheduling simulator.
//!
//! Processes are plain records of work and waiting time. A [`Scheduler`] owns
//! a ready queue and a list of finished processes; running one quantum and
//! choosing the next process are two separate steps, and the order of the
//! ready queue is decided by a comparator that the caller hands in.

pub mod algorithms;
pub mod comparator;
pub mod engine;
pub mod fakeprocess;
pub mod machine;
pub mod queue;
pub mod queuedprocess;
pub mod simulation;
pub mod sorting;

pub use crate::fakeprocess::FakeProcess;
pub use crate::queuedprocess::QueuedProcess;
pub use crate::engine::{RanScheduler, Scheduler};
