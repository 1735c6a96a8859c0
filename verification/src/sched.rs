//! What the kernels' trap loops decide after a user program traps into the kernel:
//! the batch loop of the early chapters, and the thread scheduler of the
//! chapter with threads and synchronisation.
use vstd::prelude::*;

verus! {

/// A system call as far as the loops care about it.
#[derive(Clone, Copy, Debug, PartialEq, Eq, Structural)]
pub enum CallKind {
    /// `exit`.
    Exit,
    /// `semaphore_down`, `mutex_lock` or `condvar_wait`: a result of -1 means the
    /// resource is taken and the caller must wait.
    Blocking,
    /// Any other call.
    Other,
}

/// What the system-call dispatcher answered.
#[derive(Clone, Copy, Debug, PartialEq, Eq, Structural)]
pub enum SyscallReply {
    /// The call ran and returned this value.
    Done(isize),
    /// No handler for this call id.
    Unsupported(usize),
}

/// What signal delivery decided once the call returned.
#[derive(Clone, Copy, Debug, PartialEq, Eq, Structural)]
pub enum SignalOutcome {
    /// A signal killed the process with this exit code.
    Killed(i32),
    /// The thread goes on.
    Continue,
}

/// Why a thread of the scheduler left user mode.
#[derive(Clone, Copy, Debug, PartialEq, Eq, Structural)]
pub enum ThreadTrap {
    /// An `ecall`; the dispatcher and signal delivery have run.
    Syscall { call: CallKind, reply: SyscallReply, signal: SignalOutcome },
    /// Any other exception or interrupt.
    Other,
}

/// What becomes of the thread that trapped.
#[derive(Clone, Copy, Debug, PartialEq, Eq, Structural)]
pub enum ThreadAction {
    /// It exits with this code.
    Exit(isize),
    /// It waits for a resource; this goes to `a0`.
    Block(isize),
    /// It goes back to the ready queue; this goes to `a0`.
    Suspend(isize),
}

/// Exit code of a thread whose system call has no handler.
pub const EXIT_UNSUPPORTED: isize = -2;
/// Exit code of a thread killed by an unexpected trap.
pub const EXIT_BAD_TRAP: isize = -3;

/// The scheduler's rule: a signal that kills wins; then `exit` exits with its result,
/// an unsupported call exits with -2, a blocking call that answered -1 waits, and
/// every other call is suspended with its result in `a0`. Other traps exit with -3.
pub open spec fn thread_action_spec(trap: ThreadTrap) -> ThreadAction {
    match trap {
        ThreadTrap::Other => ThreadAction::Exit(EXIT_BAD_TRAP),
        ThreadTrap::Syscall { call, reply, signal } => match signal {
            SignalOutcome::Killed(code) => ThreadAction::Exit(code as isize),
            SignalOutcome::Continue => match reply {
                SyscallReply::Unsupported(_) => ThreadAction::Exit(EXIT_UNSUPPORTED),
                SyscallReply::Done(ret) => match call {
                    CallKind::Exit => ThreadAction::Exit(ret),
                    CallKind::Blocking => if ret == -1 {
                        ThreadAction::Block(ret)
                    } else {
                        ThreadAction::Suspend(ret)
                    },
                    CallKind::Other => ThreadAction::Suspend(ret),
                },
            },
        },
    }
}

/// Decides what the scheduler does with a thread after it trapped.
pub fn thread_action(trap: ThreadTrap) -> (r: ThreadAction)
    ensures
        r == thread_action_spec(trap),
{
    match trap {
        ThreadTrap::Other => ThreadAction::Exit(EXIT_BAD_TRAP),
        ThreadTrap::Syscall { call, reply, signal } => match signal {
            SignalOutcome::Killed(code) => ThreadAction::Exit(code as isize),
            SignalOutcome::Continue => match reply {
                SyscallReply::Unsupported(_) => ThreadAction::Exit(EXIT_UNSUPPORTED),
                SyscallReply::Done(ret) => match call {
                    CallKind::Exit => ThreadAction::Exit(ret),
                    CallKind::Blocking => {
                        if ret == -1 {
                            ThreadAction::Block(ret)
                        } else {
                            ThreadAction::Suspend(ret)
                        }
                    },
                    CallKind::Other => ThreadAction::Suspend(ret),
                },
            },
        },
    }
}

/// A thread blocks only on a blocking call that answered -1 and was not killed; a
/// thread that is neither killed nor exiting always sees the call's result in `a0`.
pub proof fn law_only_failed_waits_block(trap: ThreadTrap)
    ensures
        thread_action_spec(trap) is Block <==> (trap matches ThreadTrap::Syscall { call, reply, signal }
            && call == CallKind::Blocking && reply == SyscallReply::Done(-1isize) && signal == SignalOutcome::Continue),
        trap matches ThreadTrap::Syscall { call, reply, signal } ==> (
            call != CallKind::Exit && signal == SignalOutcome::Continue && reply is Done
            ==> (thread_action_spec(trap) == ThreadAction::Block(reply->Done_0)
                || thread_action_spec(trap) == ThreadAction::Suspend(reply->Done_0))),
{
}

/// Why an application of the batch loop left user mode.
#[derive(Clone, Copy, Debug, PartialEq, Eq, Structural)]
pub enum BatchTrap {
    /// An `ecall` with its first argument `a0` and the dispatcher's answer.
    Syscall { call: CallKind, a0: usize, reply: SyscallReply },
    /// Any other exception or interrupt.
    Other,
}

/// What the batch loop does next with the running application.
#[derive(Clone, Copy, Debug, PartialEq, Eq, Structural)]
pub enum BatchStep {
    /// Store the value in `a0`, step past the `ecall` and run the application again.
    Resume(isize),
    /// The application exited with this code; go on to the next one.
    Exited(usize),
    /// The application made a call with this id that has no handler; drop it.
    Unsupported(usize),
    /// The application trapped for another reason; drop it.
    Killed,
}

/// The batch loop's rule: `exit` ends the application with its argument as exit code,
/// an unsupported call or another trap drops it, and any other call resumes it with
/// the result in `a0`.
pub open spec fn batch_step_spec(trap: BatchTrap) -> BatchStep {
    match trap {
        BatchTrap::Other => BatchStep::Killed,
        BatchTrap::Syscall { call, a0, reply } => match reply {
            SyscallReply::Unsupported(id) => BatchStep::Unsupported(id),
            SyscallReply::Done(ret) => if call == CallKind::Exit {
                BatchStep::Exited(a0)
            } else {
                BatchStep::Resume(ret)
            },
        },
    }
}

/// Decides what the batch loop does after the running application trapped.
pub fn batch_step(trap: BatchTrap) -> (r: BatchStep)
    ensures
        r == batch_step_spec(trap),
{
    match trap {
        BatchTrap::Other => BatchStep::Killed,
        BatchTrap::Syscall { call, a0, reply } => match reply {
            SyscallReply::Unsupported(id) => BatchStep::Unsupported(id),
            SyscallReply::Done(ret) => {
                if call == CallKind::Exit {
                    BatchStep::Exited(a0)
                } else {
                    BatchStep::Resume(ret)
                }
            },
        },
    }
}

} // verus!
