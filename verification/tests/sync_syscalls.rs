use rcore_os::sync::LockType;
use rcore_os::syscall::sync::{
    mutex_lock_acquired, ready_task_count, semaphore_down_acquired, sys_condvar_create,
    sys_enable_deadlock_detect, sys_mutex_create, sys_mutex_lock, sys_mutex_unlock,
    sys_semaphore_create, sys_semaphore_down, sys_semaphore_up, SyncResources, TaskStatus,
    DEADLOCK,
};

type Res = SyncResources<&'static str, usize, u8>;

#[test]
fn create_takes_lowest_free_id() {
    let mut r: Res = SyncResources::new();
    assert_eq!(sys_mutex_create(&mut r, "a"), 0);
    assert_eq!(sys_mutex_create(&mut r, "b"), 1);
    assert_eq!(sys_mutex_create(&mut r, "c"), 2);
    r.mutex_list[1] = None;
    assert_eq!(sys_mutex_create(&mut r, "d"), 1);
    assert_eq!(r.mutex_list, vec![Some("a"), Some("d"), Some("c")]);
    assert_eq!(sys_mutex_create(&mut r, "e"), 3);
}

#[test]
fn semaphore_and_condvar_create() {
    let mut r: Res = SyncResources::new();
    assert_eq!(sys_semaphore_create(&mut r, 3), 0);
    assert_eq!(sys_semaphore_create(&mut r, 1), 1);
    r.semaphore_list[0] = None;
    assert_eq!(sys_semaphore_create(&mut r, 7), 0);
    assert_eq!(r.semaphore_list, vec![Some(7), Some(1)]);
    assert_eq!(sys_condvar_create(&mut r, 9), 0);
    assert_eq!(sys_condvar_create(&mut r, 8), 1);
    assert!(r.mutex_list.is_empty());
}

#[test]
fn enable_deadlock_detect_only_on_one() {
    let mut r: Res = SyncResources::new();
    assert!(!r.deadlock_detection_enabled);
    assert_eq!(sys_enable_deadlock_detect(&mut r, 1), 0);
    assert!(r.deadlock_detection_enabled);
    assert_eq!(sys_enable_deadlock_detect(&mut r, 2), 0);
    assert!(!r.deadlock_detection_enabled);
    sys_enable_deadlock_detect(&mut r, 1);
    assert_eq!(sys_enable_deadlock_detect(&mut r, 0), 0);
    assert!(!r.deadlock_detection_enabled);
}

#[test]
fn mutex_relock_by_holder_is_refused_under_detection() {
    let mut r: Res = SyncResources::new();
    sys_enable_deadlock_detect(&mut r, 1);
    let m = sys_mutex_create(&mut r, "m") as usize;
    assert_eq!(sys_mutex_lock(&mut r, 1, m), 0);
    assert_eq!(r.lock_graph.waits(1), vec![(LockType::Mutex, m)]);
    assert_eq!(mutex_lock_acquired(&mut r, 1, m, true), 0);
    assert!(r.lock_graph.waits(1).is_empty());
    assert_eq!(r.lock_graph.holders(LockType::Mutex, m), Some((1, vec![1])));
    assert_eq!(sys_mutex_lock(&mut r, 1, m), DEADLOCK);
    assert!(r.lock_graph.waits(1).is_empty());
    assert_eq!(DEADLOCK, -0xDEAD);
}

#[test]
fn mutex_lock_without_detection_leaves_graph() {
    let mut r: Res = SyncResources::new();
    let m = sys_mutex_create(&mut r, "m") as usize;
    assert_eq!(sys_mutex_lock(&mut r, 1, m), 0);
    assert_eq!(mutex_lock_acquired(&mut r, 1, m, false), 0);
    assert_eq!(sys_mutex_lock(&mut r, 1, m), 0);
    assert!(r.lock_graph.waits(1).is_empty());
    assert!(r.lock_graph.holders(LockType::Mutex, m).is_none());
}

#[test]
fn crossing_mutexes_second_request_refused() {
    let mut r: Res = SyncResources::new();
    sys_enable_deadlock_detect(&mut r, 1);
    let a = sys_mutex_create(&mut r, "a") as usize;
    let b = sys_mutex_create(&mut r, "b") as usize;
    assert_eq!(sys_mutex_lock(&mut r, 1, a), 0);
    mutex_lock_acquired(&mut r, 1, a, true);
    assert_eq!(sys_mutex_lock(&mut r, 2, b), 0);
    mutex_lock_acquired(&mut r, 2, b, true);
    // thread 1 asks for b and blocks
    assert_eq!(sys_mutex_lock(&mut r, 1, b), 0);
    // thread 2 asking for a would close the cycle
    assert_eq!(sys_mutex_lock(&mut r, 2, a), DEADLOCK);
    assert!(r.lock_graph.waits(2).is_empty());
    // thread 2 lets b go; thread 1 gets it
    assert_eq!(sys_mutex_unlock(&mut r, 2, b), 0);
    assert_eq!(r.lock_graph.holders(LockType::Mutex, b), Some((1, vec![])));
    mutex_lock_acquired(&mut r, 1, b, true);
    assert_eq!(r.lock_graph.holders(LockType::Mutex, b), Some((1, vec![1])));
    assert!(r.lock_graph.waits(1).is_empty());
}

#[test]
fn mutex_unlock_without_detection_leaves_graph() {
    let mut r: Res = SyncResources::new();
    sys_enable_deadlock_detect(&mut r, 1);
    let m = sys_mutex_create(&mut r, "m") as usize;
    sys_mutex_lock(&mut r, 1, m);
    mutex_lock_acquired(&mut r, 1, m, true);
    sys_enable_deadlock_detect(&mut r, 0);
    assert_eq!(sys_mutex_unlock(&mut r, 1, m), 0);
    assert_eq!(r.lock_graph.holders(LockType::Mutex, m), Some((1, vec![1])));
}

#[test]
fn semaphore_down_refused_only_when_nothing_else_runs() {
    let mut r: Res = SyncResources::new();
    sys_enable_deadlock_detect(&mut r, 1);
    let s = sys_semaphore_create(&mut r, 1) as usize;
    assert_eq!(sys_semaphore_down(&mut r, 1, s, 1, 1), 0);
    // a free resource: no wait is recorded
    assert!(r.lock_graph.waits(1).is_empty());
    assert_eq!(semaphore_down_acquired(&mut r, 1, s, 1, true), 0);
    assert_eq!(r.lock_graph.holders(LockType::Semaphore, s), Some((1, vec![1])));
    // another task is ready: the wait stays and the call goes on
    assert_eq!(sys_semaphore_down(&mut r, 1, s, 0, 2), 0);
    assert_eq!(r.lock_graph.waits(1), vec![(LockType::Semaphore, s)]);
    r.lock_graph.remove_dependency(1, LockType::Semaphore, s);
    // nothing else ready: refused, wait taken back
    assert_eq!(sys_semaphore_down(&mut r, 1, s, 0, 1), DEADLOCK);
    assert!(r.lock_graph.waits(1).is_empty());
    // the semaphore is raised
    assert_eq!(sys_semaphore_up(&mut r, 1, s), 0);
    assert_eq!(r.lock_graph.holders(LockType::Semaphore, s), Some((1, vec![])));
}

#[test]
fn semaphore_down_without_detection_leaves_graph() {
    let mut r: Res = SyncResources::new();
    let s = sys_semaphore_create(&mut r, 1) as usize;
    assert_eq!(sys_semaphore_down(&mut r, 1, s, 0, 0), 0);
    assert_eq!(semaphore_down_acquired(&mut r, 1, s, 1, false), 0);
    assert_eq!(sys_semaphore_up(&mut r, 1, s), 0);
    assert!(r.lock_graph.waits(1).is_empty());
    assert!(r.lock_graph.holders(LockType::Semaphore, s).is_none());
}

#[test]
fn ready_tasks_are_counted() {
    let tasks = vec![
        Some(TaskStatus::Ready),
        None,
        Some(TaskStatus::Running),
        Some(TaskStatus::Ready),
        Some(TaskStatus::Blocked),
    ];
    assert_eq!(ready_task_count(&tasks), 2);
    assert_eq!(ready_task_count(&vec![]), 0);
}

#[test]
fn granted_request_leaves_waits_and_adds_holder() {
    let mut r: Res = SyncResources::new();
    sys_enable_deadlock_detect(&mut r, 1);
    let s = sys_semaphore_create(&mut r, 2) as usize;
    r.lock_graph.add_dependency(3, LockType::Mutex, 9);
    r.lock_graph.allocate_lock(LockType::Semaphore, s, 2, 4);
    assert_eq!(sys_semaphore_down(&mut r, 3, s, 0, 2), 0);
    assert_eq!(semaphore_down_acquired(&mut r, 3, s, 2, true), 0);
    assert_eq!(r.lock_graph.waits(3), vec![(LockType::Mutex, 9)]);
    assert_eq!(r.lock_graph.holders(LockType::Semaphore, s), Some((2, vec![4, 3])));
}

#[test]
fn semaphore_down_not_refused_when_a_holder_can_go_on() {
    let mut r: Res = SyncResources::new();
    sys_enable_deadlock_detect(&mut r, 1);
    let s0 = sys_semaphore_create(&mut r, 2) as usize;
    let s1 = sys_semaphore_create(&mut r, 1) as usize;
    r.lock_graph.allocate_lock(LockType::Semaphore, s0, 2, 1);
    r.lock_graph.allocate_lock(LockType::Semaphore, s0, 2, 2);
    r.lock_graph.add_dependency(1, LockType::Semaphore, s1);
    r.lock_graph.add_dependency(2, LockType::Semaphore, s1);
    r.lock_graph.allocate_lock(LockType::Semaphore, s1, 1, 3);
    // thread 3 waits for nothing and can raise semaphore 1
    assert_eq!(sys_semaphore_down(&mut r, 4, s0, 0, 1), 0);
    assert_eq!(r.lock_graph.waits(4), vec![(LockType::Semaphore, s0)]);
}

#[test]
fn objects_are_looked_up_by_id() {
    let mut r: Res = SyncResources::new();
    sys_mutex_create(&mut r, "a");
    sys_mutex_create(&mut r, "b");
    r.mutex_list[0] = None;
    assert_eq!(r.mutex_of(0), None);
    assert_eq!(r.mutex_of(1), Some(&"b"));
    assert_eq!(r.mutex_of(2), None);
    sys_semaphore_create(&mut r, 5);
    assert_eq!(r.semaphore_of(0), Some(&5));
    assert_eq!(r.semaphore_of(1), None);
    sys_condvar_create(&mut r, 9);
    assert_eq!(r.condvar_of(0), Some(&9));
    assert_eq!(r.condvar_of(3), None);
}

#[test]
fn thread_downing_every_unit_then_asking_again_is_refused() {
    let mut r: Res = SyncResources::new();
    sys_enable_deadlock_detect(&mut r, 1);
    let s = sys_semaphore_create(&mut r, 2) as usize;
    assert_eq!(sys_semaphore_down(&mut r, 1, s, 2, 1), 0);
    semaphore_down_acquired(&mut r, 1, s, 2, true);
    assert_eq!(sys_semaphore_down(&mut r, 1, s, 1, 1), 0);
    semaphore_down_acquired(&mut r, 1, s, 2, true);
    assert_eq!(r.lock_graph.holders(LockType::Semaphore, s), Some((2, vec![1, 1])));
    assert_eq!(sys_semaphore_down(&mut r, 1, s, 0, 1), DEADLOCK);
    assert!(r.lock_graph.waits(1).is_empty());
}
