use vstd::prelude::*;
use crate::sync::lock_graph::{LockGraph, LockGraphView, LockType, lock_key};
use crate::sync::lock_graph_laws::{
    lemma_deadlock_needs_exhausted_lock, lemma_remove_dependency_undoes_add,
};

verus! {

/// The value a lock or semaphore request returns when granting it would deadlock.
pub const DEADLOCK: isize = -0xDEAD;

/// The synchronization resources of a process: its mutexes, semaphores and condition
/// variables by id (a free id holds `None`), its lock dependency graph, and whether
/// deadlock detection is on. The kernel objects themselves (`M`, `S`, `C`) are only
/// stored here.
pub struct SyncResources<M, S, C> {
    pub mutex_list: Vec<Option<M>>,
    pub semaphore_list: Vec<Option<S>>,
    pub condvar_list: Vec<Option<C>>,
    pub lock_graph: LockGraph,
    pub deadlock_detection_enabled: bool,
}

/// `id` is the lowest free slot of `list`, or its length when no slot is free.
pub open spec fn is_first_free<T>(list: Seq<Option<T>>, id: int) -> bool {
    &&& 0 <= id <= list.len()
    &&& forall|j: int| 0 <= j < id ==> list[j] is Some
    &&& id < list.len() ==> list[id] is None
}

/// `list` with `item` placed in slot `id`, which is either free or one past the end.
pub open spec fn placed<T>(list: Seq<Option<T>>, id: int, item: T) -> Seq<Option<T>> {
    if id < list.len() {
        list.update(id, Some(item))
    } else {
        list.push(Some(item))
    }
}

/// Puts `item` in the lowest free slot of `list`, appending a slot when none is free,
/// and returns the slot's id.
fn place_in_first_free<T>(list: &mut Vec<Option<T>>, item: T) -> (id: usize)
    ensures
        is_first_free(old(list)@, id as int),
        final(list)@ == placed(old(list)@, id as int, item),
        id <= old(list)@.len(),
        forall|j: int| 0 <= j < id ==> old(list)@[j] is Some,
        id < old(list)@.len() ==> old(list)@[id as int] is None,
        final(list)@.len() == if id < old(list)@.len() {
            old(list)@.len()
        } else {
            old(list)@.len() + 1
        },
        final(list)@[id as int] == Some(item),
        forall|j: int| 0 <= j < old(list)@.len() && j != id ==> final(list)@[j] == old(list)@[j],
{
    let mut i: usize = 0;
    while i < list.len()
        invariant
            i <= list.len(),
            forall|j: int| 0 <= j < i ==> list@[j] is Some,
        ensures
            i <= list.len(),
            forall|j: int| 0 <= j < i ==> list@[j] is Some,
            i < list.len() ==> list@[i as int] is None,
        decreases list.len() - i,
    {
        if list[i].is_none() {
            break;
        }
        i += 1;
    }
    if i < list.len() {
        list.set(i, Some(item));
    } else {
        list.push(Some(item));
    }
    i
}

/// The lock graph after a thread asks for `(lock_type, lock_id)` under deadlock
/// detection: its wait is added, and taken back when `refuse` holds.
pub open spec fn request_graph(
    g: LockGraphView,
    tid: usize,
    lock_type: LockType,
    lock_id: usize,
    refuse: bool,
) -> LockGraphView {
    let added = g.add_dependency(tid, lock_type, lock_id);
    if refuse {
        added.remove_dependency(tid, lock_type, lock_id)
    } else {
        added
    }
}

/// The lock graph after a thread got `(lock_type, lock_id)` under deadlock detection:
/// its wait is dropped and it becomes a holder.
pub open spec fn acquired_graph(
    g: LockGraphView,
    tid: usize,
    lock_type: LockType,
    lock_id: usize,
    res_max_count: usize,
) -> LockGraphView {
    g.remove_dependency(tid, lock_type, lock_id).allocate_lock(
        lock_type,
        lock_id,
        res_max_count,
        tid,
    )
}

/// Number of the tasks that are ready to run.
pub open spec fn ready_count(tasks: Seq<Option<TaskStatus>>) -> nat
    decreases tasks.len(),
{
    if tasks.len() == 0 {
        0
    } else {
        ready_count(tasks.drop_last()) + if tasks.last() == Some(TaskStatus::Ready) {
            1nat
        } else {
            0nat
        }
    }
}

/// The status of a task.
#[derive(Clone, Copy, PartialEq, Eq, Structural, Debug)]
pub enum TaskStatus {
    /// ready to run
    Ready,
    /// running
    Running,
    /// blocked
    Blocked,
}

/// The number of tasks of a process that are ready to run (free task slots hold `None`).
pub fn ready_task_count(tasks: &Vec<Option<TaskStatus>>) -> (n: usize)
    ensures
        n == ready_count(tasks@),
        n == tasks@.filter(|s: Option<TaskStatus>| s == Some(TaskStatus::Ready)).len(),
{
    let mut n: usize = 0;
    let mut i: usize = 0;
    while i < tasks.len()
        invariant
            i <= tasks.len(),
            n == ready_count(tasks@.take(i as int)),
            n <= i,
        decreases tasks.len() - i,
    {
        assert(tasks@.take(i + 1).drop_last() =~= tasks@.take(i as int));
        if tasks[i] == Some(TaskStatus::Ready) {
            n += 1;
        }
        i += 1;
    }
    assert(tasks@.take(tasks.len() as int) =~= tasks@);
    proof {
        lemma_ready_count_is_filter(tasks@);
    }
    n
}

/// The number of ready tasks is the length of the list of the task slots that hold a
/// ready task.
pub proof fn lemma_ready_count_is_filter(tasks: Seq<Option<TaskStatus>>)
    ensures
        ready_count(tasks) == tasks.filter(|s: Option<TaskStatus>| s == Some(TaskStatus::Ready)).len(),
    decreases tasks.len(),
{
    reveal(Seq::filter);
    if tasks.len() > 0 {
        lemma_ready_count_is_filter(tasks.drop_last());
    }
}

/// Appending a task slot raises the number of ready tasks by one exactly when the slot
/// holds a ready task, and an empty list has none.
pub proof fn lemma_ready_count_push(tasks: Seq<Option<TaskStatus>>, status: Option<TaskStatus>)
    ensures
        ready_count(Seq::empty()) == 0,
        ready_count(tasks.push(status)) == ready_count(tasks) + if status == Some(
            TaskStatus::Ready,
        ) {
            1int
        } else {
            0int
        },
{
    assert(tasks.push(status).drop_last() =~= tasks);
    lemma_ready_count_is_filter(tasks);
    lemma_ready_count_is_filter(tasks.push(status));
    reveal(Seq::filter);
}

/// The object in slot `id` of `list`; `None` when the slot is free or past the end.
fn slot<T>(list: &Vec<Option<T>>, id: usize) -> (r: Option<&T>)
    ensures
        r is Some <==> (id < list.len() && list@[id as int] is Some),
        r matches Some(x) ==> list@[id as int] == Some(*x),
{
    if id < list.len() {
        match &list[id] {
            Some(x) => Some(x),
            None => None,
        }
    } else {
        None
    }
}

impl<M, S, C> SyncResources<M, S, C> {
    /// The mutex with id `id`; `None` when there is none.
    pub fn mutex_of(&self, id: usize) -> (m: Option<&M>)
        ensures
            m is Some <==> (id < self.mutex_list.len() && self.mutex_list@[id as int] is Some),
            m matches Some(x) ==> self.mutex_list@[id as int] == Some(*x),
    {
        slot(&self.mutex_list, id)
    }

    /// The semaphore with id `id`; `None` when there is none.
    pub fn semaphore_of(&self, id: usize) -> (s: Option<&S>)
        ensures
            s is Some <==> (id < self.semaphore_list.len() && self.semaphore_list@[id as int] is Some),
            s matches Some(x) ==> self.semaphore_list@[id as int] == Some(*x),
    {
        slot(&self.semaphore_list, id)
    }

    /// The condition variable with id `id`; `None` when there is none.
    pub fn condvar_of(&self, id: usize) -> (c: Option<&C>)
        ensures
            c is Some <==> (id < self.condvar_list.len() && self.condvar_list@[id as int] is Some),
            c matches Some(x) ==> self.condvar_list@[id as int] == Some(*x),
    {
        slot(&self.condvar_list, id)
    }

    /// No mutex, semaphore or condition variable, an empty lock graph, and deadlock
    /// detection off.
    pub fn new() -> (r: Self)
        ensures
            r.mutex_list@.len() == 0,
            r.semaphore_list@.len() == 0,
            r.condvar_list@.len() == 0,
            r.lock_graph@.resources.is_empty(),
            r.lock_graph@.processes.is_empty(),
            !r.deadlock_detection_enabled,
    {
        SyncResources {
            mutex_list: Vec::new(),
            semaphore_list: Vec::new(),
            condvar_list: Vec::new(),
            lock_graph: LockGraph::new(),
            deadlock_detection_enabled: false,
        }
    }
}

/// mutex create syscall: the new mutex takes the lowest free id, whose number is returned.
pub fn sys_mutex_create<M, S, C>(res: &mut SyncResources<M, S, C>, mutex: M) -> (id: isize)
    requires
        old(res).mutex_list.len() < isize::MAX,
    ensures
        is_first_free(old(res).mutex_list@, id as int),
        final(res).mutex_list@ == placed(old(res).mutex_list@, id as int, mutex),
        0 <= id <= old(res).mutex_list@.len(),
        forall|j: int| 0 <= j < id ==> old(res).mutex_list@[j] is Some,
        id < old(res).mutex_list@.len() ==> old(res).mutex_list@[id as int] is None,
        final(res).mutex_list@.len() == if id < old(res).mutex_list@.len() {
            old(res).mutex_list@.len()
        } else {
            old(res).mutex_list@.len() + 1
        },
        final(res).mutex_list@[id as int] == Some(mutex),
        forall|j: int|
            0 <= j < old(res).mutex_list@.len() && j != id ==> final(res).mutex_list@[j] == old(
                res,
            ).mutex_list@[j],
        final(res).semaphore_list == old(res).semaphore_list,
        final(res).condvar_list == old(res).condvar_list,
        final(res).lock_graph == old(res).lock_graph,
        final(res).deadlock_detection_enabled == old(res).deadlock_detection_enabled,
{
    let id = place_in_first_free(&mut res.mutex_list, mutex);
    id as isize
}

/// semaphore create syscall: the new semaphore takes the lowest free id, whose number is
/// returned.
pub fn sys_semaphore_create<M, S, C>(res: &mut SyncResources<M, S, C>, semaphore: S) -> (id: isize)
    requires
        old(res).semaphore_list.len() < isize::MAX,
    ensures
        is_first_free(old(res).semaphore_list@, id as int),
        final(res).semaphore_list@ == placed(old(res).semaphore_list@, id as int, semaphore),
        0 <= id <= old(res).semaphore_list@.len(),
        forall|j: int| 0 <= j < id ==> old(res).semaphore_list@[j] is Some,
        id < old(res).semaphore_list@.len() ==> old(res).semaphore_list@[id as int] is None,
        final(res).semaphore_list@.len() == if id < old(res).semaphore_list@.len() {
            old(res).semaphore_list@.len()
        } else {
            old(res).semaphore_list@.len() + 1
        },
        final(res).semaphore_list@[id as int] == Some(semaphore),
        forall|j: int|
            0 <= j < old(res).semaphore_list@.len() && j != id ==> final(res).semaphore_list@[j] == old(
                res,
            ).semaphore_list@[j],
        final(res).mutex_list == old(res).mutex_list,
        final(res).condvar_list == old(res).condvar_list,
        final(res).lock_graph == old(res).lock_graph,
        final(res).deadlock_detection_enabled == old(res).deadlock_detection_enabled,
{
    let id = place_in_first_free(&mut res.semaphore_list, semaphore);
    id as isize
}

/// condvar create syscall: the new condition variable takes the lowest free id, whose
/// number is returned.
pub fn sys_condvar_create<M, S, C>(res: &mut SyncResources<M, S, C>, condvar: C) -> (id: isize)
    requires
        old(res).condvar_list.len() < isize::MAX,
    ensures
        is_first_free(old(res).condvar_list@, id as int),
        final(res).condvar_list@ == placed(old(res).condvar_list@, id as int, condvar),
        0 <= id <= old(res).condvar_list@.len(),
        forall|j: int| 0 <= j < id ==> old(res).condvar_list@[j] is Some,
        id < old(res).condvar_list@.len() ==> old(res).condvar_list@[id as int] is None,
        final(res).condvar_list@.len() == if id < old(res).condvar_list@.len() {
            old(res).condvar_list@.len()
        } else {
            old(res).condvar_list@.len() + 1
        },
        final(res).condvar_list@[id as int] == Some(condvar),
        forall|j: int|
            0 <= j < old(res).condvar_list@.len() && j != id ==> final(res).condvar_list@[j] == old(
                res,
            ).condvar_list@[j],
        final(res).mutex_list == old(res).mutex_list,
        final(res).semaphore_list == old(res).semaphore_list,
        final(res).lock_graph == old(res).lock_graph,
        final(res).deadlock_detection_enabled == old(res).deadlock_detection_enabled,
{
    let id = place_in_first_free(&mut res.condvar_list, condvar);
    id as isize
}

/// enable deadlock detection syscall: detection is on exactly when `enabled` is 1.
pub fn sys_enable_deadlock_detect<M, S, C>(res: &mut SyncResources<M, S, C>, enabled: usize) -> (r: isize)
    ensures
        r == 0,
        final(res).deadlock_detection_enabled == (enabled == 1),
        final(res).mutex_list == old(res).mutex_list,
        final(res).semaphore_list == old(res).semaphore_list,
        final(res).condvar_list == old(res).condvar_list,
        final(res).lock_graph == old(res).lock_graph,
{
    res.deadlock_detection_enabled = enabled == 1;
    0
}


/// The facts about a refused request that follow from the laws of the lock graph: the
/// thread waits for the same locks as before, and the requested lock is held, with its
/// held units using up all of its resources.
pub open spec fn refusal_facts(
    before: LockGraphView,
    after: LockGraphView,
    tid: usize,
    lock_type: LockType,
    lock_id: usize,
) -> bool {
    let key = lock_key(lock_type, lock_id);
    &&& after.waits_of(tid).to_multiset() == before.waits_of(tid).to_multiset()
    &&& after.resources == before.resources
    &&& before.resources.contains_key(key)
    &&& before.resources[key].1.len() > 0
    &&& before.resources[key].1.len() >= before.resources[key].0
}

proof fn lemma_refusal_facts(g: LockGraphView, tid: usize, lock_type: LockType, lock_id: usize)
    requires
        g.add_dependency(tid, lock_type, lock_id).has_cycle(lock_type, lock_id),
    ensures
        refusal_facts(
            g,
            request_graph(g, tid, lock_type, lock_id, true),
            tid,
            lock_type,
            lock_id,
        ),
{
    lemma_deadlock_needs_exhausted_lock(g.add_dependency(tid, lock_type, lock_id), lock_type, lock_id);
    lemma_remove_dependency_undoes_add(g, tid, lock_type, lock_id);
}

/// A request that is granted, followed by getting the lock, leaves the thread waiting
/// for what it waited for before (the same sequence where it did not wait for this lock
/// yet, else the same multiset) and adds it as a holder of the lock, at the end; a lock
/// seen for the first time gets `res_max_count` resources. Other threads' waits and
/// other locks are untouched.
pub proof fn lemma_granted_request(
    g: LockGraphView,
    tid: usize,
    lock_type: LockType,
    lock_id: usize,
    res_max_count: usize,
)
    ensures
        ({
            let key = lock_key(lock_type, lock_id);
            let h = acquired_graph(
                request_graph(g, tid, lock_type, lock_id, false),
                tid,
                lock_type,
                lock_id,
                res_max_count,
            );
            &&& h.waits_of(tid).to_multiset() == g.waits_of(tid).to_multiset()
            &&& !g.waits_of(tid).contains((lock_type, lock_id)) ==> h.waits_of(tid) == g.waits_of(
                tid,
            )
            &&& forall|t: usize|
                t != tid && #[trigger] g.processes.contains_key(t) ==> h.processes[t]
                    == g.processes[t]
            &&& h.holders_of(key) == g.holders_of(key).push(tid)
            &&& h.resources[key].0 == if g.resources.contains_key(key) {
                g.resources[key].0
            } else {
                res_max_count
            }
            &&& forall|k: (u8, usize)|
                k != key && #[trigger] g.resources.contains_key(k) ==> h.resources[k]
                    == g.resources[k]
        }),
{
    lemma_remove_dependency_undoes_add(g, tid, lock_type, lock_id);
}

impl<M, S, C> SyncResources<M, S, C> {
    /// Under deadlock detection, records that `tid` waits for `(lock_type, lock_id)`
    /// and, when `refuse_if_cycle` holds and granting it would deadlock, takes the wait
    /// back and returns `true`.
    fn request_lock(
        &mut self,
        tid: usize,
        lock_type: LockType,
        lock_id: usize,
        refuse_if_cycle: bool,
    ) -> (refused: bool)
        ensures
            refused == (refuse_if_cycle && old(self).lock_graph@.add_dependency(
                tid,
                lock_type,
                lock_id,
            ).has_cycle(lock_type, lock_id)),
            final(self).lock_graph@ == request_graph(
                old(self).lock_graph@,
                tid,
                lock_type,
                lock_id,
                refused,
            ),
            refused ==> refusal_facts(
                old(self).lock_graph@,
                final(self).lock_graph@,
                tid,
                lock_type,
                lock_id,
            ),
            final(self).mutex_list == old(self).mutex_list,
            final(self).semaphore_list == old(self).semaphore_list,
            final(self).condvar_list == old(self).condvar_list,
            final(self).deadlock_detection_enabled == old(self).deadlock_detection_enabled,
    {
        self.lock_graph.add_dependency(tid, lock_type, lock_id);
        let cycle = self.lock_graph.has_cycle(lock_type, lock_id);
        if refuse_if_cycle && cycle {
            self.lock_graph.remove_dependency(tid, lock_type, lock_id);
            proof {
                lemma_refusal_facts(old(self).lock_graph@, tid, lock_type, lock_id);
            }
            true
        } else {
            false
        }
    }

    /// Under deadlock detection, records that `tid` got `(lock_type, lock_id)`: its wait
    /// is dropped and it becomes a holder.
    fn grant_lock(&mut self, tid: usize, lock_type: LockType, lock_id: usize, res_max_count: usize)
        ensures
            final(self).lock_graph@ == acquired_graph(
                old(self).lock_graph@,
                tid,
                lock_type,
                lock_id,
                res_max_count,
            ),
            final(self).mutex_list == old(self).mutex_list,
            final(self).semaphore_list == old(self).semaphore_list,
            final(self).condvar_list == old(self).condvar_list,
            final(self).deadlock_detection_enabled == old(self).deadlock_detection_enabled,
    {
        self.lock_graph.remove_dependency(tid, lock_type, lock_id);
        self.lock_graph.allocate_lock(lock_type, lock_id, res_max_count, tid);
    }
}

/// mutex lock syscall, up to the point where the thread blocks on the mutex.
///
/// Under deadlock detection the thread's wait for the mutex is recorded; if the lock
/// graph then shows a deadlock, the wait is taken back and `DEADLOCK` is returned.
/// Otherwise 0 is returned and the caller goes on to lock the mutex, then calls
/// `mutex_lock_acquired`.
pub fn sys_mutex_lock<M, S, C>(res: &mut SyncResources<M, S, C>, tid: usize, mutex_id: usize) -> (r: isize)
    requires
        mutex_id < old(res).mutex_list.len(),
        old(res).mutex_list@[mutex_id as int] is Some,
    ensures
        ({
            let g = old(res).lock_graph@;
            let refuse = old(res).deadlock_detection_enabled && g.add_dependency(
                tid,
                LockType::Mutex,
                mutex_id,
            ).has_cycle(LockType::Mutex, mutex_id);
            &&& r == if refuse {
                DEADLOCK
            } else {
                0
            }
            &&& final(res).lock_graph@ == if old(res).deadlock_detection_enabled {
                request_graph(g, tid, LockType::Mutex, mutex_id, refuse)
            } else {
                g
            }
        }),
        r == DEADLOCK ==> refusal_facts(
            old(res).lock_graph@,
            final(res).lock_graph@,
            tid,
            LockType::Mutex,
            mutex_id,
        ),
        final(res).mutex_list == old(res).mutex_list,
        final(res).semaphore_list == old(res).semaphore_list,
        final(res).condvar_list == old(res).condvar_list,
        final(res).deadlock_detection_enabled == old(res).deadlock_detection_enabled,
{
    if res.deadlock_detection_enabled {
        if res.request_lock(tid, LockType::Mutex, mutex_id, true) {
            return DEADLOCK;
        }
    }
    0
}

/// mutex lock syscall, after the thread got the mutex: under the deadlock detection
/// setting `detection` that held when it asked, its wait is dropped and it becomes the
/// mutex's holder (a mutex has one resource).
pub fn mutex_lock_acquired<M, S, C>(
    res: &mut SyncResources<M, S, C>,
    tid: usize,
    mutex_id: usize,
    detection: bool,
) -> (r: isize)
    ensures
        r == 0,
        final(res).lock_graph@ == if detection {
            acquired_graph(old(res).lock_graph@, tid, LockType::Mutex, mutex_id, 1)
        } else {
            old(res).lock_graph@
        },
        final(res).mutex_list == old(res).mutex_list,
        final(res).semaphore_list == old(res).semaphore_list,
        final(res).condvar_list == old(res).condvar_list,
        final(res).deadlock_detection_enabled == old(res).deadlock_detection_enabled,
{
    if detection {
        res.grant_lock(tid, LockType::Mutex, mutex_id, 1);
    }
    0
}

/// mutex unlock syscall, after the mutex was unlocked: under deadlock detection the
/// thread stops being one of its holders.
pub fn sys_mutex_unlock<M, S, C>(res: &mut SyncResources<M, S, C>, tid: usize, mutex_id: usize) -> (r: isize)
    requires
        mutex_id < old(res).mutex_list.len(),
        old(res).mutex_list@[mutex_id as int] is Some,
    ensures
        r == 0,
        final(res).lock_graph@ == if old(res).deadlock_detection_enabled {
            old(res).lock_graph@.release_lock(LockType::Mutex, mutex_id, tid)
        } else {
            old(res).lock_graph@
        },
        final(res).mutex_list == old(res).mutex_list,
        final(res).semaphore_list == old(res).semaphore_list,
        final(res).condvar_list == old(res).condvar_list,
        final(res).deadlock_detection_enabled == old(res).deadlock_detection_enabled,
{
    if res.deadlock_detection_enabled {
        res.lock_graph.release_lock(LockType::Mutex, mutex_id, tid);
    }
    0
}

/// semaphore up syscall, after the semaphore was raised: under deadlock detection the
/// thread stops being one of its holders.
pub fn sys_semaphore_up<M, S, C>(res: &mut SyncResources<M, S, C>, tid: usize, sem_id: usize) -> (r: isize)
    requires
        sem_id < old(res).semaphore_list.len(),
        old(res).semaphore_list@[sem_id as int] is Some,
    ensures
        r == 0,
        final(res).lock_graph@ == if old(res).deadlock_detection_enabled {
            old(res).lock_graph@.release_lock(LockType::Semaphore, sem_id, tid)
        } else {
            old(res).lock_graph@
        },
        final(res).mutex_list == old(res).mutex_list,
        final(res).semaphore_list == old(res).semaphore_list,
        final(res).condvar_list == old(res).condvar_list,
        final(res).deadlock_detection_enabled == old(res).deadlock_detection_enabled,
{
    if res.deadlock_detection_enabled {
        res.lock_graph.release_lock(LockType::Semaphore, sem_id, tid);
    }
    0
}

/// semaphore down syscall, up to the point where the thread lowers the semaphore.
///
/// `sem_count` is the semaphore's count and `ready_tasks` the number of the process's
/// tasks that are ready to run. Under deadlock detection, when no resource is left
/// (`sem_count <= 0`), the thread's wait is recorded; if the lock graph then shows a
/// deadlock and at most one task is ready, the wait is taken back and `DEADLOCK` is
/// returned. Otherwise 0 is returned and the caller goes on to lower the semaphore,
/// then calls `semaphore_down_acquired`.
pub fn sys_semaphore_down<M, S, C>(
    res: &mut SyncResources<M, S, C>,
    tid: usize,
    sem_id: usize,
    sem_count: isize,
    ready_tasks: usize,
) -> (r: isize)
    requires
        sem_id < old(res).semaphore_list.len(),
        old(res).semaphore_list@[sem_id as int] is Some,
    ensures
        ({
            let g = old(res).lock_graph@;
            let waits = old(res).deadlock_detection_enabled && sem_count <= 0;
            let refuse = waits && ready_tasks <= 1 && g.add_dependency(
                tid,
                LockType::Semaphore,
                sem_id,
            ).has_cycle(LockType::Semaphore, sem_id);
            &&& r == if refuse {
                DEADLOCK
            } else {
                0
            }
            &&& final(res).lock_graph@ == if waits {
                request_graph(g, tid, LockType::Semaphore, sem_id, refuse)
            } else {
                g
            }
        }),
        r == DEADLOCK ==> refusal_facts(
            old(res).lock_graph@,
            final(res).lock_graph@,
            tid,
            LockType::Semaphore,
            sem_id,
        ),
        final(res).mutex_list == old(res).mutex_list,
        final(res).semaphore_list == old(res).semaphore_list,
        final(res).condvar_list == old(res).condvar_list,
        final(res).deadlock_detection_enabled == old(res).deadlock_detection_enabled,
{
    if res.deadlock_detection_enabled && sem_count <= 0 {
        if res.request_lock(tid, LockType::Semaphore, sem_id, ready_tasks <= 1) {
            return DEADLOCK;
        }
    }
    0
}

/// semaphore down syscall, after the thread lowered the semaphore: under the deadlock
/// detection setting `detection` that held when it asked, its wait (if any) is dropped
/// and it becomes a holder; a semaphore seen for the first time gets `sem_max_count`
/// resources.
pub fn semaphore_down_acquired<M, S, C>(
    res: &mut SyncResources<M, S, C>,
    tid: usize,
    sem_id: usize,
    sem_max_count: usize,
    detection: bool,
) -> (r: isize)
    ensures
        r == 0,
        final(res).lock_graph@ == if detection {
            acquired_graph(old(res).lock_graph@, tid, LockType::Semaphore, sem_id, sem_max_count)
        } else {
            old(res).lock_graph@
        },
        final(res).mutex_list == old(res).mutex_list,
        final(res).semaphore_list == old(res).semaphore_list,
        final(res).condvar_list == old(res).condvar_list,
        final(res).deadlock_detection_enabled == old(res).deadlock_detection_enabled,
{
    if detection {
        res.grant_lock(tid, LockType::Semaphore, sem_id, sem_max_count);
    }
    0
}

} // verus!
