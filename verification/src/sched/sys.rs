//! The system calls on threads.
use vstd::prelude::*;
use crate::sched::thread::{Thread, ThreadState, ThreadView};

verus! {

/// The registers that a system call gets its arguments in, and returns its results in.
#[derive(Debug, Clone, Copy, PartialEq, Eq, Structural)]
pub struct SyscallVals {
    pub a1: usize,
    pub a2: usize,
}

/// Where a new thread is to start.
pub fn thread_entry(vals: &SyscallVals) -> (rip: usize)
    ensures
        rip == vals.a1,
{
    vals.a1
}

/// Tells the caller the id of the thread that was made for it, or that there is none.
pub fn thread_new<E>(vals: &mut SyscallVals, made: Result<usize, E>)
    ensures
        *final(vals) == match made {
            Ok(tid) => SyscallVals { a1: tid, a2: 0 },
            Err(_) => SyscallVals { a1: 0, a2: 1 },
        },
{
    match made {
        Ok(tid) => {
            vals.a1 = tid;
            vals.a2 = 0;
        },
        Err(_) => {
            vals.a1 = 0;
            vals.a2 = 1;
        },
    }
}

/// The state that a thread asks to be put into, where there is such a state.
pub open spec fn block_state(vals: SyscallVals) -> Option<ThreadState> {
    if vals.a1 == 0 {
        Some(ThreadState::Running)
    } else if vals.a1 == 1 {
        Some(ThreadState::Destroy)
    } else if vals.a1 == 2 {
        Some(ThreadState::Sleep(vals.a2 as u64))
    } else if vals.a1 == 3 {
        Some(ThreadState::Join(vals.a2))
    } else {
        None
    }
}

/// Reason 1 is to end, reason 2 to sleep until the time that is given with it, and reason 3
/// to wait for the thread that is given with it. For reason 0 the thread goes on running,
/// and there is no other reason.
pub proof fn lemma_block_reasons(vals: SyscallVals)
    ensures
        vals.a1 == 0 ==> block_state(vals) == Some(ThreadState::Running),
        vals.a1 == 1 ==> block_state(vals) == Some(ThreadState::Destroy),
        vals.a1 == 2 ==> (block_state(vals) matches Some(ThreadState::Sleep(nsec)) && nsec as int
            == vals.a2 as int),
        vals.a1 == 3 ==> (block_state(vals) matches Some(ThreadState::Join(tid)) && tid
            == vals.a2),
        vals.a1 > 3 ==> block_state(vals) is None,
{
}

/// Blocks the running thread for the reason that it asks for. Tells whether the scheduler
/// is to be called. None of the reasons is a futex, so there is nothing to prepare.
pub fn thread_block(vals: &SyscallVals, thread: &mut Thread) -> (blocked: bool)
    ensures
        match block_state(*vals) {
            Some(state) => {
                &&& blocked == (state != ThreadState::Running)
                &&& final(thread)@ == if state == ThreadState::Running {
                    old(thread)@
                } else {
                    ThreadView { state, ..old(thread)@ }
                }
            },
            None => !blocked && final(thread)@ == old(thread)@,
        },
        vals.a1 == 2 ==> (final(thread)@.state matches ThreadState::Sleep(nsec) && nsec as int
            == vals.a2 as int),
        vals.a1 == 3 ==> (final(thread)@.state matches ThreadState::Join(tid) && tid == vals.a2),
{
    let reason: usize = vals.a1;
    let arg: usize = vals.a2;
    match reason {
        0 => thread.block(ThreadState::Running),
        1 => thread.block(ThreadState::Destroy),
        2 => thread.block(ThreadState::Sleep(arg as u64)),
        3 => thread.block(ThreadState::Join(arg)),
        _ => false,
    }
}

} // verus!
