//! One attempt at claiming a planned bump reservation on an offset that several harts
//! share.
use vstd::prelude::*;
use core::sync::atomic::{AtomicUsize, Ordering};
use crate::memory::Reservation;

verus! {

/// What one attempt at a claim came to.
pub enum ClaimAttempt {
    /// The plan refused the request at the offset read: the allocation fails.
    Refused,
    /// The compare-and-swap moved the offset to the block's end: the block's start is
    /// handed out.
    Won(usize),
    /// Another hart moved the offset first: try again from the new one.
    Lost,
}

/// Reads the shared offset, asks `plan` what to reserve there and, where it names a
/// block, tries to move the offset from the value read to the block's end in one
/// compare-and-swap. Whatever the offset held, the answer follows the plan made at the
/// offset read; whether the swap succeeds is up to the other harts, so a planned block
/// is either won or lost.
pub fn claim_attempt<F: Fn(usize) -> Option<Reservation>>(next: &AtomicUsize, plan: F) -> (r: ClaimAttempt)
    requires
        forall|current: usize| call_requires(plan, (current,)),
    ensures
        exists|current: usize, planned: Option<Reservation>| {
            &&& #[trigger] call_ensures(plan, (current,), planned)
            &&& match planned {
                None => r is Refused,
                Some(Reservation::Exhausted) => r is Refused,
                Some(Reservation::Claim { start, end: _ }) => r == ClaimAttempt::Won(start) || r is Lost,
            }
        },
{
    let current = next.load(Ordering::Relaxed);
    let planned = plan(current);
    match planned {
        None => ClaimAttempt::Refused,
        Some(Reservation::Exhausted) => ClaimAttempt::Refused,
        Some(Reservation::Claim { start, end }) => {
            match next.compare_exchange(current, end, Ordering::SeqCst, Ordering::Relaxed) {
                Ok(_) => ClaimAttempt::Won(start),
                Err(_) => ClaimAttempt::Lost,
            }
        },
    }
}

} // verus!
