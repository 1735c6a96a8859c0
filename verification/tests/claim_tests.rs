use core::sync::atomic::{AtomicUsize, Ordering};
use tg_rcore_tutorial::claim::{claim_attempt, ClaimAttempt};
use tg_rcore_tutorial::memory::Reservation;

#[test]
fn claim_attempt_refuses_when_the_plan_does() {
    let next = AtomicUsize::new(40);
    assert!(matches!(claim_attempt(&next, |_| None), ClaimAttempt::Refused));
    assert!(matches!(claim_attempt(&next, |_| Some(Reservation::Exhausted)), ClaimAttempt::Refused));
    assert_eq!(next.load(Ordering::SeqCst), 40);
}

#[test]
fn claim_attempt_moves_the_offset_to_the_block_end() {
    let next = AtomicUsize::new(40);
    let plan = |current: usize| Some(Reservation::Claim { start: 1000 + current, end: current + 16 });
    assert!(matches!(claim_attempt(&next, &plan), ClaimAttempt::Won(1040)));
    assert_eq!(next.load(Ordering::SeqCst), 56);
    assert!(matches!(claim_attempt(&next, &plan), ClaimAttempt::Won(1056)));
    assert_eq!(next.load(Ordering::SeqCst), 72);
}

#[test]
fn claim_attempt_loses_when_the_offset_moves_meanwhile() {
    let next = AtomicUsize::new(8);
    let rival = |current: usize| {
        next.store(current + 4, Ordering::SeqCst);
        Some(Reservation::Claim { start: current, end: current + 2 })
    };
    assert!(matches!(claim_attempt(&next, rival), ClaimAttempt::Lost));
    assert_eq!(next.load(Ordering::SeqCst), 12);
}
