use rcore_os::deadlock::detect_deadlock;
use rcore_os::syscall::sync::{
    mutex_lock_acquired, semaphore_down_acquired, sys_condvar_create, sys_condvar_signal, sys_condvar_wait,
    sys_enable_deadlock_detect, sys_mutex_create, sys_mutex_lock, sys_mutex_unlock, sys_semaphore_create,
    sys_semaphore_down, sys_semaphore_up, sys_sleep, ProcessControlBlockInner,
};

type Inner = ProcessControlBlockInner<&'static str, usize, u8>;

#[test]
fn circular_wait_is_a_deadlock() {
    // Thread 0 holds resource 0 and wants 1; thread 1 holds 1 and wants 0.
    let available = vec![0, 0];
    let allocation = vec![vec![1usize, 0], vec![0, 1]];
    let need = vec![vec![0usize, 1], vec![1, 0]];
    assert!(detect_deadlock(&available, &allocation, &need));
}

#[test]
fn threads_that_can_finish_in_turn_are_safe() {
    // Thread 1 can finish with what is free, then gives back what thread 0 needs.
    let available = vec![0, 1];
    let allocation = vec![vec![1usize, 0], vec![0, 1]];
    let need = vec![vec![0usize, 2], vec![0, 1]];
    assert!(!detect_deadlock(&available, &allocation, &need));
}

#[test]
fn missing_entries_count_as_zero() {
    let available: Vec<i32> = vec![];
    let allocation = vec![vec![], vec![2usize]];
    let need = vec![vec![0usize, 0, 0], vec![]];
    assert!(!detect_deadlock(&available, &allocation, &need));
    let need = vec![vec![1usize], vec![0, 0, 1]];
    assert!(detect_deadlock(&available, &vec![vec![], vec![]], &need));
    assert!(!detect_deadlock(&vec![], &vec![], &vec![]));
}

#[test]
fn semaphore_counts_are_added_up() {
    // Three threads share a semaphore with 3 units; 1 is free.
    let available = vec![1];
    let allocation = vec![vec![1usize], vec![1], vec![0]];
    let need = vec![vec![2usize], vec![1], vec![3]];
    assert!(!detect_deadlock(&available, &allocation, &need));
    let need = vec![vec![2usize], vec![2], vec![4]];
    assert!(detect_deadlock(&available, &allocation, &need));
}

#[test]
fn mutexes_take_the_first_free_slot() {
    let mut inner: Inner = ProcessControlBlockInner::new();
    assert_eq!(sys_mutex_create(&mut inner, "a"), 0);
    assert_eq!(sys_mutex_create(&mut inner, "b"), 1);
    assert_eq!(inner.mutex_available, vec![1, 1]);
    inner.mutex_list[0] = None;
    assert_eq!(sys_mutex_create(&mut inner, "c"), 0);
    assert_eq!(inner.mutex_list, vec![Some("c"), Some("b")]);
}

#[test]
fn lock_acquire_unlock_keeps_the_books() {
    let mut inner: Inner = ProcessControlBlockInner::new();
    let t = inner.add_thread();
    assert_eq!(t, 0);
    assert_eq!(sys_mutex_create(&mut inner, "m"), 0);
    assert_eq!(sys_mutex_lock(&mut inner, 0, 0), 0);
    assert_eq!(inner.mutex_need, vec![vec![1usize]]);
    assert_eq!(inner.mutex_allocation, vec![vec![0usize]]);
    assert_eq!(mutex_lock_acquired(&mut inner, 0, 0), 0);
    assert_eq!(inner.mutex_available, vec![0]);
    assert_eq!(inner.mutex_need, vec![vec![0usize]]);
    assert_eq!(inner.mutex_allocation, vec![vec![1usize]]);
    assert_eq!(sys_mutex_unlock(&mut inner, 0, 0), 0);
    assert_eq!(inner.mutex_available, vec![1]);
    assert_eq!(inner.mutex_allocation, vec![vec![0usize]]);
}

#[test]
fn deadlocking_lock_is_refused_when_detection_is_on() {
    let mut inner: Inner = ProcessControlBlockInner::new();
    inner.add_thread();
    inner.add_thread();
    sys_mutex_create(&mut inner, "m0");
    sys_mutex_create(&mut inner, "m1");
    assert_eq!(sys_enable_deadlock_detect(&mut inner, 1), 0);
    assert!(inner.deadlock_detect);
    assert_eq!(sys_mutex_lock(&mut inner, 0, 0), 0);
    mutex_lock_acquired(&mut inner, 0, 0);
    assert_eq!(sys_mutex_lock(&mut inner, 1, 1), 0);
    mutex_lock_acquired(&mut inner, 1, 1);
    // Thread 0 waits for mutex 1: thread 1 can still finish.
    assert_eq!(sys_mutex_lock(&mut inner, 0, 1), 0);
    // Thread 1 asking for mutex 0 would close the circle.
    assert_eq!(sys_mutex_lock(&mut inner, 1, 0), -0xDEAD);
    assert_eq!(inner.mutex_need, vec![vec![0usize, 1], vec![0, 0]]);
    assert_eq!(inner.deadlock_detect(), (false, false));
}

#[test]
fn deadlocking_lock_goes_ahead_when_detection_is_off() {
    let mut inner: Inner = ProcessControlBlockInner::new();
    inner.add_thread();
    inner.add_thread();
    sys_mutex_create(&mut inner, "m0");
    sys_mutex_create(&mut inner, "m1");
    sys_mutex_lock(&mut inner, 0, 0);
    mutex_lock_acquired(&mut inner, 0, 0);
    sys_mutex_lock(&mut inner, 1, 1);
    mutex_lock_acquired(&mut inner, 1, 1);
    sys_mutex_lock(&mut inner, 0, 1);
    assert_eq!(sys_mutex_lock(&mut inner, 1, 0), 0);
    assert_eq!(inner.deadlock_detect(), (true, false));
}

#[test]
fn deadlock_detection_takes_only_zero_or_one() {
    let mut inner: Inner = ProcessControlBlockInner::new();
    assert_eq!(sys_enable_deadlock_detect(&mut inner, 2), -1);
    assert!(!inner.deadlock_detect);
    assert_eq!(sys_enable_deadlock_detect(&mut inner, 1), 0);
    assert_eq!(sys_enable_deadlock_detect(&mut inner, 0), 0);
    assert!(!inner.deadlock_detect);
}

#[test]
fn semaphores_keep_the_books() {
    let mut inner: Inner = ProcessControlBlockInner::new();
    inner.add_thread();
    inner.add_thread();
    assert_eq!(sys_semaphore_create(&mut inner, 2, 20), 0);
    assert_eq!(sys_semaphore_create(&mut inner, 0, 30), 1);
    assert_eq!(inner.semaphore_available, vec![2, 0]);
    assert_eq!(sys_semaphore_down(&mut inner, 1, 0), 0);
    assert_eq!(semaphore_down_acquired(&mut inner, 1, 0), 0);
    assert_eq!(inner.semaphore_available, vec![1, 0]);
    assert_eq!(inner.semaphore_allocation, vec![vec![], vec![1usize]]);
    assert_eq!(sys_semaphore_up(&mut inner, 0), 0);
    assert_eq!(inner.semaphore_available, vec![2, 0]);
    // Up does not change what the thread holds.
    assert_eq!(inner.semaphore_allocation, vec![vec![], vec![1usize]]);
}

#[test]
fn waiting_on_an_empty_semaphore_held_by_nobody_is_a_deadlock() {
    let mut inner: Inner = ProcessControlBlockInner::new();
    inner.add_thread();
    sys_semaphore_create(&mut inner, 0, 1);
    sys_enable_deadlock_detect(&mut inner, 1);
    assert_eq!(sys_semaphore_down(&mut inner, 0, 0), -0xDEAD);
    assert_eq!(inner.semaphore_need, vec![vec![0usize]]);
}

#[test]
fn semaphore_count_is_cut_to_32_bits() {
    let mut inner: Inner = ProcessControlBlockInner::new();
    sys_semaphore_create(&mut inner, 0x1_0000_0005, 1);
    assert_eq!(inner.semaphore_available, vec![5]);
}

#[test]
fn condvars_take_the_first_free_slot() {
    let mut inner: Inner = ProcessControlBlockInner::new();
    assert_eq!(sys_condvar_create(&mut inner, 7), 0);
    assert_eq!(sys_condvar_create(&mut inner, 8), 1);
    inner.condvar_list[0] = None;
    assert_eq!(sys_condvar_create(&mut inner, 9), 0);
    sys_mutex_create(&mut inner, "m");
    assert_eq!(sys_condvar_signal(&inner, 1), 0);
    assert_eq!(sys_condvar_wait(&inner, 0, 0), 0);
}

#[test]
fn reused_slot_pads_the_available_vector() {
    let mut inner: Inner = ProcessControlBlockInner::new();
    inner.mutex_list = vec![Some("x"), None];
    assert_eq!(sys_mutex_create(&mut inner, "y"), 1);
    assert_eq!(inner.mutex_available, vec![0, 1]);
}

#[test]
fn sleep_computes_the_wake_up_time() {
    assert_eq!(sys_sleep(100, 50), (0, 150));
    assert_eq!(sys_sleep(0, 0), (0, 0));
}

/// Available plus held units of mutex `k`.
fn units(inner: &Inner, k: usize) -> i64 {
    let held: usize = inner.mutex_allocation.iter().map(|row| row.get(k).copied().unwrap_or(0)).sum();
    inner.mutex_available.get(k).copied().unwrap_or(0) as i64 + held as i64
}

#[test]
fn every_mutex_keeps_one_unit_through_lock_and_unlock() {
    let mut inner: Inner = ProcessControlBlockInner::new();
    inner.add_thread();
    inner.add_thread();
    sys_mutex_create(&mut inner, "a");
    sys_mutex_create(&mut inner, "b");
    assert_eq!((units(&inner, 0), units(&inner, 1)), (1, 1));
    assert_eq!(sys_mutex_lock(&mut inner, 1, 1), 0);
    assert_eq!((units(&inner, 0), units(&inner, 1)), (1, 1));
    mutex_lock_acquired(&mut inner, 1, 1);
    assert_eq!((units(&inner, 0), units(&inner, 1)), (1, 1));
    assert_eq!(inner.mutex_available, vec![1, 0]);
    sys_mutex_unlock(&mut inner, 1, 1);
    assert_eq!((units(&inner, 0), units(&inner, 1)), (1, 1));
}

#[test]
fn lock_and_unlock_from_an_empty_row_leave_zeros_behind() {
    let mut inner: Inner = ProcessControlBlockInner::new();
    inner.add_thread();
    sys_mutex_create(&mut inner, "a");
    sys_mutex_create(&mut inner, "b");
    sys_mutex_create(&mut inner, "c");
    assert_eq!(sys_mutex_lock(&mut inner, 0, 2), 0);
    mutex_lock_acquired(&mut inner, 0, 2);
    sys_mutex_unlock(&mut inner, 0, 2);
    assert_eq!(inner.mutex_available, vec![1, 1, 1]);
    assert_eq!(inner.mutex_allocation, vec![vec![0usize, 0, 0]]);
    assert_eq!(inner.mutex_need, vec![vec![0usize, 0, 0]]);
}
