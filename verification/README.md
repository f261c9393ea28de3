# rcore_os

Deadlock detection and the decision logic of the synchronization and
process-management system calls of a small RISC-V teaching kernel, verified with
Verus.

- `src/sync/lock_graph.rs`: the lock dependency graph (which thread holds which
  mutex or semaphore, which thread waits for which) and the depth-first search
  that reports a deadlock when a lock is requested. The search is proved to report
  exactly when the wait-for graph leads from the requested lock into a cycle whose
  locks are all used up by their holders.
- `src/sync/lock_graph_laws.rs`: what holds of the graph across calls: a reported
  deadlock is always on a used-up lock, the order of holders does not matter,
  adding a wait never hides a deadlock, and removing a wait or a hold undoes adding
  it.
- `src/syscall/sync.rs`: mutex, semaphore and condition-variable creation, and the
  lock and unlock calls as steps that update the lock graph around the blocking
  done by the kernel.
- `src/syscall/process.rs`: the time value written to user memory, and the checks of
  the trace, mmap and munmap calls.
- `app/lib.rs`: the system calls as the kernel runs them, over a `Kernel` trait for
  the services (scheduling, timers, page tables, kernel lock objects) they use.
