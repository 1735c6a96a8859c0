use tg_rcore_tutorial::sched::{
    batch_step, thread_action, BatchStep, BatchTrap, CallKind, SignalOutcome, SyscallReply, ThreadAction, ThreadTrap,
    EXIT_BAD_TRAP, EXIT_UNSUPPORTED,
};

fn call(call: CallKind, reply: SyscallReply) -> ThreadTrap {
    ThreadTrap::Syscall { call, reply, signal: SignalOutcome::Continue }
}

#[test]
fn ordinary_calls_suspend_with_their_result() {
    assert_eq!(thread_action(call(CallKind::Other, SyscallReply::Done(42))), ThreadAction::Suspend(42));
    assert_eq!(thread_action(call(CallKind::Other, SyscallReply::Done(-1))), ThreadAction::Suspend(-1));
}

#[test]
fn failed_blocking_calls_block() {
    assert_eq!(thread_action(call(CallKind::Blocking, SyscallReply::Done(-1))), ThreadAction::Block(-1));
    assert_eq!(thread_action(call(CallKind::Blocking, SyscallReply::Done(0))), ThreadAction::Suspend(0));
    assert_eq!(thread_action(call(CallKind::Blocking, SyscallReply::Done(-0xdead))), ThreadAction::Suspend(-0xdead));
}

#[test]
fn exits_and_errors_end_the_thread() {
    assert_eq!(thread_action(call(CallKind::Exit, SyscallReply::Done(7))), ThreadAction::Exit(7));
    assert_eq!(thread_action(call(CallKind::Other, SyscallReply::Unsupported(999))), ThreadAction::Exit(EXIT_UNSUPPORTED));
    assert_eq!(thread_action(ThreadTrap::Other), ThreadAction::Exit(EXIT_BAD_TRAP));
    assert_eq!((EXIT_UNSUPPORTED, EXIT_BAD_TRAP), (-2, -3));
}

#[test]
fn a_killing_signal_wins() {
    let trap = ThreadTrap::Syscall {
        call: CallKind::Blocking,
        reply: SyscallReply::Done(-1),
        signal: SignalOutcome::Killed(-9),
    };
    assert_eq!(thread_action(trap), ThreadAction::Exit(-9));
    let trap = ThreadTrap::Syscall {
        call: CallKind::Other,
        reply: SyscallReply::Unsupported(1),
        signal: SignalOutcome::Killed(3),
    };
    assert_eq!(thread_action(trap), ThreadAction::Exit(3));
}

#[test]
fn the_batch_loop_resumes_exits_or_drops() {
    let trap = BatchTrap::Syscall { call: CallKind::Other, a0: 1, reply: SyscallReply::Done(12) };
    assert_eq!(batch_step(trap), BatchStep::Resume(12));
    let trap = BatchTrap::Syscall { call: CallKind::Exit, a0: 5, reply: SyscallReply::Done(0) };
    assert_eq!(batch_step(trap), BatchStep::Exited(5));
    let trap = BatchTrap::Syscall { call: CallKind::Other, a0: 0, reply: SyscallReply::Unsupported(77) };
    assert_eq!(batch_step(trap), BatchStep::Unsupported(77));
    assert_eq!(batch_step(BatchTrap::Other), BatchStep::Killed);
}
