use tg_rcore_tutorial::deadlock::{DeadlockState, DEADLOCK_DETECTED};

const SLOTS: [Option<()>; 2] = [Some(()), Some(())];

#[test]
fn enable_switch_accepts_only_zero_and_one() {
    let mut d = DeadlockState::new();
    assert!(!d.enabled);
    assert_eq!(d.enable_deadlock_detect(1), 0);
    assert!(d.enabled);
    assert_eq!(d.enable_deadlock_detect(2), -1);
    assert!(d.enabled);
    assert_eq!(d.enable_deadlock_detect(0), 0);
    assert!(!d.enabled);
    assert_eq!(d.enable_deadlock_detect(-1), -1);
    assert!(!d.enabled);
}

#[test]
fn ids_count_up() {
    let mut d = DeadlockState::new();
    assert_eq!(d.register_semaphore(1), 0);
    assert_eq!(d.register_semaphore(3), 1);
    assert_eq!(d.register_mutex(), 0);
    assert_eq!(d.register_mutex(), 1);
}

#[test]
fn mutex_cycle_is_refused_when_detection_is_on() {
    let mut d = DeadlockState::new();
    d.register_mutex();
    d.register_mutex();
    assert_eq!(d.enable_deadlock_detect(1), 0);
    assert_eq!(d.mutex_lock(&SLOTS, 1, 0, |_| true), 0);
    assert_eq!(d.mutex_lock(&SLOTS, 2, 1, |_| true), 0);
    assert_eq!(d.mutex_lock(&SLOTS, 1, 1, |_| false), -1);
    assert!(d.mutex_would_deadlock(2, 0));
    let mut asked = false;
    assert_eq!(d.mutex_lock(&SLOTS, 2, 0, |_| { asked = true; false }), DEADLOCK_DETECTED);
    assert!(!asked);
    assert_eq!(DEADLOCK_DETECTED, -0xdead);
}

#[test]
fn mutex_cycle_blocks_when_detection_is_off() {
    let mut d = DeadlockState::new();
    d.register_mutex();
    d.register_mutex();
    assert_eq!(d.mutex_lock(&SLOTS, 1, 0, |_| true), 0);
    assert_eq!(d.mutex_lock(&SLOTS, 2, 1, |_| true), 0);
    assert_eq!(d.mutex_lock(&SLOTS, 1, 1, |_| false), -1);
    assert_eq!(d.mutex_lock(&SLOTS, 2, 0, |_| false), -1);
}

#[test]
fn relocking_a_held_mutex_is_a_deadlock() {
    let mut d = DeadlockState::new();
    d.register_mutex();
    d.enable_deadlock_detect(1);
    assert_eq!(d.mutex_lock(&SLOTS, 3, 0, |_| true), 0);
    assert!(d.mutex_would_deadlock(3, 0));
    assert_eq!(d.mutex_lock(&SLOTS, 3, 0, |_| false), DEADLOCK_DETECTED);
    assert!(!d.mutex_would_deadlock(4, 0));
}

#[test]
fn unlock_hands_the_mutex_over() {
    let mut d = DeadlockState::new();
    d.register_mutex();
    d.enable_deadlock_detect(1);
    assert_eq!(d.mutex_lock(&SLOTS, 1, 0, |_| true), 0);
    assert_eq!(d.mutex_lock(&SLOTS, 2, 0, |_| false), -1);
    d.mutex_release(1, 0, Some(2));
    assert!(d.mutex_would_deadlock(2, 0));
    assert!(!d.mutex_would_deadlock(1, 0));
    d.mutex_release(2, 0, None);
    assert!(!d.mutex_would_deadlock(2, 0));
}

#[test]
fn condvar_wait_releases_then_waits_or_reacquires() {
    let mut d = DeadlockState::new();
    d.register_mutex();
    assert_eq!(d.mutex_lock(&SLOTS, 1, 0, |_| true), 0);
    assert_eq!(d.condvar_wait(1, 0, None, true), 0);
    assert!(d.mutex_would_deadlock(1, 0));
    assert_eq!(d.condvar_wait(1, 0, None, false), -1);
    assert!(!d.mutex_would_deadlock(1, 0));
}

#[test]
fn semaphore_request_that_leaves_a_safe_order_goes_ahead() {
    let mut d = DeadlockState::new();
    d.register_semaphore(1);
    d.enable_deadlock_detect(1);
    let active = [1usize, 2];
    assert_eq!(d.semaphore_down(&SLOTS, &active, 1, 0, |_| true), 0);
    assert!(!d.semaphore_would_deadlock(&active, 2, 0));
    assert_eq!(d.semaphore_down(&SLOTS, &active, 2, 0, |_| false), -1);
}

#[test]
fn crossed_semaphore_waits_are_refused() {
    let mut d = DeadlockState::new();
    d.register_semaphore(1);
    d.register_semaphore(1);
    d.enable_deadlock_detect(1);
    let active = [1usize, 2];
    assert_eq!(d.semaphore_down(&SLOTS, &active, 1, 0, |_| true), 0);
    assert_eq!(d.semaphore_down(&SLOTS, &active, 2, 1, |_| true), 0);
    assert_eq!(d.semaphore_down(&SLOTS, &active, 1, 1, |_| false), -1);
    assert!(d.semaphore_would_deadlock(&active, 2, 0));
    assert_eq!(d.semaphore_down(&SLOTS, &active, 2, 0, |_| true), DEADLOCK_DETECTED);
    d.enable_deadlock_detect(0);
    assert_eq!(d.semaphore_down(&SLOTS, &active, 2, 0, |_| false), -1);
}

#[test]
fn release_wakes_a_waiter_and_makes_it_safe_again() {
    let mut d = DeadlockState::new();
    d.register_semaphore(1);
    d.register_semaphore(1);
    let active = [1usize, 2];
    assert_eq!(d.semaphore_down(&SLOTS, &active, 1, 0, |_| true), 0);
    assert_eq!(d.semaphore_down(&SLOTS, &active, 2, 1, |_| true), 0);
    assert_eq!(d.semaphore_down(&SLOTS, &active, 1, 1, |_| false), -1);
    d.semaphore_release(2, 1, Some(1));
    assert!(!d.semaphore_would_deadlock(&active, 2, 0));
}

#[test]
fn unknown_semaphore_is_never_a_deadlock() {
    let d = DeadlockState::new();
    assert!(!d.semaphore_would_deadlock(&[1, 2], 1, 5));
}

#[test]
fn exiting_thread_stops_waiting() {
    let mut d = DeadlockState::new();
    d.register_semaphore(1);
    d.register_semaphore(1);
    d.register_mutex();
    d.register_mutex();
    let active = [1usize, 2];
    d.semaphore_acquired(1, 0);
    d.semaphore_acquired(2, 1);
    d.semaphore_wait(1, 1);
    assert!(d.semaphore_would_deadlock(&active, 2, 0));
    d.on_thread_exit(1);
    assert!(d.semaphore_would_deadlock(&[2usize], 2, 0));
    assert!(!d.semaphore_would_deadlock(&active, 2, 0));
    d.semaphore_cancel_wait(2, 0);
    d.mutex_acquired(1, 0);
    d.mutex_acquired(2, 1);
    d.mutex_wait(1, 1);
    assert!(d.mutex_would_deadlock(2, 0));
    d.on_thread_exit(1);
    assert!(!d.mutex_would_deadlock(2, 0));
}

#[test]
fn unknown_or_empty_slots_are_refused() {
    let mut d = DeadlockState::new();
    d.register_semaphore(1);
    d.register_mutex();
    d.enable_deadlock_detect(1);
    let mut asked = false;
    assert_eq!(d.semaphore_down(&[None::<()>], &[1usize], 1, 0, |_| { asked = true; true }), -1);
    assert_eq!(d.semaphore_down(&SLOTS, &[1usize], 1, 5, |_| { asked = true; true }), -1);
    assert_eq!(d.mutex_lock(&[None::<()>], 1, 0, |_| { asked = true; true }), -1);
    assert_eq!(d.mutex_lock(&SLOTS, 1, 9, |_| { asked = true; true }), -1);
    assert!(!asked);
    assert!(!d.mutex_would_deadlock(2, 0));
}

#[test]
fn a_loop_among_other_threads_is_reported() {
    let mut d = DeadlockState::new();
    let m0 = d.register_mutex();
    let m1 = d.register_mutex();
    d.mutex_acquired(1, m0);
    d.mutex_acquired(2, m1);
    d.mutex_wait(1, m1);
    d.mutex_wait(2, m0);
    assert!(d.mutex_would_deadlock(3, m0));
    assert!(d.mutex_would_deadlock(3, m1));
    d.enable_deadlock_detect(1);
    assert_eq!(d.mutex_lock(&SLOTS, 3, m0, |_| false), DEADLOCK_DETECTED);
}

#[test]
fn a_chain_that_ends_is_not_reported() {
    let mut d = DeadlockState::new();
    let m0 = d.register_mutex();
    let m1 = d.register_mutex();
    d.mutex_acquired(1, m0);
    d.mutex_acquired(2, m1);
    d.mutex_wait(1, m1);
    assert!(!d.mutex_would_deadlock(3, m0));
    assert!(d.mutex_would_deadlock(2, m0));
}
