use rcore_os::sync::{LockGraph, LockType};

#[test]
fn new_graph_reports_no_deadlock() {
    let g = LockGraph::new();
    assert!(!g.has_cycle(LockType::Mutex, 0));
    assert!(!g.has_cycle(LockType::Semaphore, 3));
    assert!(g.holders(LockType::Mutex, 0).is_none());
    assert!(g.waits(0).is_empty());
}

#[test]
fn add_dependency_appends_waits_in_order() {
    let mut g = LockGraph::new();
    g.add_dependency(1, LockType::Mutex, 0);
    g.add_dependency(1, LockType::Semaphore, 2);
    g.add_dependency(1, LockType::Mutex, 0);
    assert_eq!(
        g.waits(1),
        vec![(LockType::Mutex, 0), (LockType::Semaphore, 2), (LockType::Mutex, 0)]
    );
    assert!(g.waits(2).is_empty());
}

#[test]
fn remove_dependency_drops_first_matching_wait() {
    let mut g = LockGraph::new();
    g.add_dependency(1, LockType::Mutex, 0);
    g.add_dependency(1, LockType::Semaphore, 0);
    g.add_dependency(1, LockType::Mutex, 0);
    g.remove_dependency(1, LockType::Mutex, 0);
    assert_eq!(g.waits(1), vec![(LockType::Semaphore, 0), (LockType::Mutex, 0)]);
    // the lock type is part of the match
    g.remove_dependency(1, LockType::Semaphore, 1);
    assert_eq!(g.waits(1), vec![(LockType::Semaphore, 0), (LockType::Mutex, 0)]);
    // a thread without an entry is left alone
    g.remove_dependency(7, LockType::Mutex, 0);
    assert!(g.waits(7).is_empty());
}

#[test]
fn allocate_lock_keeps_first_count() {
    let mut g = LockGraph::new();
    g.allocate_lock(LockType::Semaphore, 4, 3, 10);
    g.allocate_lock(LockType::Semaphore, 4, 9, 11);
    assert_eq!(g.holders(LockType::Semaphore, 4), Some((3, vec![10, 11])));
    assert!(g.holders(LockType::Mutex, 4).is_none());
}

#[test]
fn release_lock_drops_first_hold() {
    let mut g = LockGraph::new();
    g.allocate_lock(LockType::Semaphore, 4, 3, 10);
    g.allocate_lock(LockType::Semaphore, 4, 3, 11);
    g.allocate_lock(LockType::Semaphore, 4, 3, 10);
    g.release_lock(LockType::Semaphore, 4, 10);
    assert_eq!(g.holders(LockType::Semaphore, 4), Some((3, vec![11, 10])));
    g.release_lock(LockType::Semaphore, 4, 99);
    assert_eq!(g.holders(LockType::Semaphore, 4), Some((3, vec![11, 10])));
    // an unknown lock stays unknown
    g.release_lock(LockType::Mutex, 4, 10);
    assert!(g.holders(LockType::Mutex, 4).is_none());
}

#[test]
fn thread_waiting_for_its_own_mutex_deadlocks() {
    let mut g = LockGraph::new();
    g.allocate_lock(LockType::Mutex, 0, 1, 1);
    g.add_dependency(1, LockType::Mutex, 0);
    assert!(g.has_cycle(LockType::Mutex, 0));
}

#[test]
fn two_threads_crossing_mutexes_deadlock() {
    let mut g = LockGraph::new();
    g.allocate_lock(LockType::Mutex, 0, 1, 1);
    g.allocate_lock(LockType::Mutex, 1, 1, 2);
    g.add_dependency(1, LockType::Mutex, 1);
    g.add_dependency(2, LockType::Mutex, 0);
    assert!(g.has_cycle(LockType::Mutex, 0));
    assert!(g.has_cycle(LockType::Mutex, 1));
}

#[test]
fn waiting_on_a_free_chain_does_not_deadlock() {
    let mut g = LockGraph::new();
    g.allocate_lock(LockType::Mutex, 0, 1, 1);
    g.add_dependency(2, LockType::Mutex, 0);
    assert!(!g.has_cycle(LockType::Mutex, 0));
    // a lock nobody ever held is not a deadlock
    assert!(!g.has_cycle(LockType::Mutex, 5));
}

#[test]
fn semaphore_with_a_spare_resource_does_not_deadlock() {
    let mut g = LockGraph::new();
    g.allocate_lock(LockType::Semaphore, 0, 2, 1);
    g.add_dependency(1, LockType::Semaphore, 0);
    assert!(!g.has_cycle(LockType::Semaphore, 0));
    g.allocate_lock(LockType::Semaphore, 0, 2, 2);
    g.add_dependency(2, LockType::Semaphore, 0);
    assert!(g.has_cycle(LockType::Semaphore, 0));
}

#[test]
fn a_thread_holding_every_unit_and_waiting_deadlocks() {
    let mut g = LockGraph::new();
    g.allocate_lock(LockType::Semaphore, 0, 2, 1);
    g.add_dependency(1, LockType::Semaphore, 0);
    assert!(!g.has_cycle(LockType::Semaphore, 0));
    g.allocate_lock(LockType::Semaphore, 0, 2, 1);
    assert!(g.has_cycle(LockType::Semaphore, 0));
}

#[test]
fn idle_holder_met_twice_is_no_cycle() {
    // Thread 1 holds a semaphore with two resources and the mutex, and waits for
    // nothing; thread 2 holds the other resource and waits for the mutex. Thread 1 is
    // met on two paths, but no path comes back to where it started.
    let mut g = LockGraph::new();
    g.allocate_lock(LockType::Semaphore, 0, 2, 1);
    g.allocate_lock(LockType::Semaphore, 0, 2, 2);
    g.allocate_lock(LockType::Mutex, 0, 1, 1);
    g.add_dependency(2, LockType::Mutex, 0);
    assert!(!g.has_cycle(LockType::Semaphore, 0));
}

#[test]
fn holder_of_two_waited_locks_without_waits_is_no_cycle() {
    let mut g = LockGraph::new();
    g.allocate_lock(LockType::Mutex, 0, 1, 1);
    g.add_dependency(1, LockType::Mutex, 1);
    g.add_dependency(1, LockType::Mutex, 2);
    g.allocate_lock(LockType::Mutex, 1, 1, 9);
    g.allocate_lock(LockType::Mutex, 2, 1, 9);
    assert!(!g.has_cycle(LockType::Mutex, 0));
    // thread 9 now waits for mutex 0: a real cycle
    g.add_dependency(9, LockType::Mutex, 0);
    assert!(g.has_cycle(LockType::Mutex, 0));
}

#[test]
fn adding_a_wait_keeps_a_reported_deadlock() {
    let mut g = LockGraph::new();
    g.allocate_lock(LockType::Mutex, 0, 1, 1);
    g.allocate_lock(LockType::Mutex, 1, 1, 2);
    g.add_dependency(1, LockType::Mutex, 1);
    g.add_dependency(2, LockType::Mutex, 0);
    g.allocate_lock(LockType::Mutex, 3, 1, 7);
    g.release_lock(LockType::Mutex, 3, 7);
    assert!(g.has_cycle(LockType::Mutex, 0));
    g.add_dependency(2, LockType::Mutex, 3);
    assert!(g.has_cycle(LockType::Mutex, 0));
    g.add_dependency(1, LockType::Semaphore, 5);
    assert!(g.has_cycle(LockType::Mutex, 0));
}

#[test]
fn cycle_reached_through_the_requested_lock_is_reported() {
    // Mutex 0's holder, thread 1, is caught in a cycle with thread 2 over mutexes 1 and 2.
    let mut g = LockGraph::new();
    g.allocate_lock(LockType::Mutex, 0, 1, 1);
    g.allocate_lock(LockType::Mutex, 2, 1, 1);
    g.allocate_lock(LockType::Mutex, 1, 1, 2);
    g.add_dependency(1, LockType::Mutex, 1);
    g.add_dependency(2, LockType::Mutex, 2);
    assert!(g.has_cycle(LockType::Mutex, 0));
}

#[test]
fn cycle_through_a_lock_with_spare_resources_is_not_reported() {
    let mut g = LockGraph::new();
    g.allocate_lock(LockType::Mutex, 0, 1, 1);
    g.allocate_lock(LockType::Semaphore, 1, 2, 2);
    g.add_dependency(1, LockType::Semaphore, 1);
    g.add_dependency(2, LockType::Mutex, 0);
    assert!(!g.has_cycle(LockType::Mutex, 0));
}

#[test]
fn holder_order_does_not_change_the_answer() {
    let mut a = LockGraph::new();
    a.allocate_lock(LockType::Semaphore, 0, 2, 1);
    a.allocate_lock(LockType::Semaphore, 0, 2, 2);
    a.add_dependency(2, LockType::Semaphore, 0);
    let mut b = LockGraph::new();
    b.allocate_lock(LockType::Semaphore, 0, 2, 2);
    b.allocate_lock(LockType::Semaphore, 0, 2, 1);
    b.add_dependency(2, LockType::Semaphore, 0);
    assert_eq!(a.has_cycle(LockType::Semaphore, 0), b.has_cycle(LockType::Semaphore, 0));
    assert!(a.has_cycle(LockType::Semaphore, 0));
}

#[test]
fn deadlock_only_on_an_exhausted_lock() {
    let mut g = LockGraph::new();
    g.allocate_lock(LockType::Semaphore, 0, 3, 1);
    g.allocate_lock(LockType::Semaphore, 0, 3, 2);
    g.add_dependency(1, LockType::Semaphore, 0);
    g.add_dependency(2, LockType::Semaphore, 0);
    // both holders wait for it again, but a third resource is free
    assert!(!g.has_cycle(LockType::Semaphore, 0));
}

#[test]
fn remove_dependency_undoes_add_dependency() {
    let mut g = LockGraph::new();
    g.add_dependency(1, LockType::Mutex, 3);
    g.add_dependency(1, LockType::Semaphore, 0);
    let before = g.waits(1);
    g.add_dependency(1, LockType::Mutex, 5);
    g.remove_dependency(1, LockType::Mutex, 5);
    assert_eq!(g.waits(1), before);
    // with the lock already waited for, the same waits remain, in another order
    g.add_dependency(1, LockType::Mutex, 3);
    g.remove_dependency(1, LockType::Mutex, 3);
    assert_eq!(g.waits(1), vec![(LockType::Semaphore, 0), (LockType::Mutex, 3)]);
}

#[test]
fn release_lock_undoes_allocate_lock() {
    let mut g = LockGraph::new();
    g.allocate_lock(LockType::Mutex, 2, 1, 4);
    g.allocate_lock(LockType::Mutex, 2, 1, 9);
    g.release_lock(LockType::Mutex, 2, 9);
    assert_eq!(g.holders(LockType::Mutex, 2), Some((1, vec![4])));
    // a lock seen for the first time stays known, with no holder
    g.allocate_lock(LockType::Semaphore, 8, 5, 4);
    g.release_lock(LockType::Semaphore, 8, 4);
    assert_eq!(g.holders(LockType::Semaphore, 8), Some((5, vec![])));
}

#[test]
fn cloned_graph_answers_alike() {
    let mut g = LockGraph::new();
    g.allocate_lock(LockType::Mutex, 0, 1, 1);
    g.add_dependency(1, LockType::Mutex, 0);
    let h = g.clone();
    assert_eq!(h.has_cycle(LockType::Mutex, 0), g.has_cycle(LockType::Mutex, 0));
    assert_eq!(h.waits(1), g.waits(1));
}

#[test]
fn lock_type_codes() {
    assert_eq!(LockType::Mutex.code(), 0);
    assert_eq!(LockType::Semaphore.code(), 1);
}
