//! Deadlock detection and the decision logic of the synchronization and
//! process-management system calls of a small teaching kernel.

pub mod sync;
pub mod syscall;
