//! System-call logic, split from the kernel services that carry it out.

pub mod sync;
pub mod process;
