//! Synchronization and resource-accounting layer of a teaching operating-system
//! kernel, modeled as a library of verified state transitions.
//!
//! A process's synchronization state (mutex, semaphore and condition-variable
//! slot tables, the resource ledger, and the deadlock-detection flag) lives in
//! [`proc::ProcSyncState`]. Each syscall of the kernel's synchronization
//! surface is a method on that state; where the kernel would
//! suspend or resume a thread through the scheduler, the method instead
//! returns a [`proc::SysEffect`] describing the scheduling action, and the
//! surrounding (unverified) kernel loop carries it out.

pub mod detect;
pub mod ledger;
pub mod proc;
pub mod queue;
pub mod sched;

pub use ledger::Ledger;
pub use proc::{MutexKind, Park, ProcSyncState, SysEffect, DEADLOCK_RC};
pub use queue::WaitQueue;
pub use sched::{sys_set_priority, sys_sleep, TimeVal};
