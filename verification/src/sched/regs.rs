//! What a thread holds in the registers of the processor.
use vstd::prelude::*;
use crate::sched::stack::Stack;

verus! {

/// The privilege of a process.
#[derive(Debug, Clone, Copy, PartialEq, Eq, Structural)]
pub enum PrivLevel {
    Kernel,
    SuperUser,
    User,
}

/// What a message hands over in registers.
#[derive(Debug, Clone, Copy, PartialEq, Eq, Structural)]
pub struct MsgArgs {
    pub a1: u64,
    pub a2: u64,
    pub a3: u64,
    pub a4: u64,
}

/// Why a system call failed.
#[derive(Debug, Clone, Copy, PartialEq, Eq, Structural)]
pub enum SysErr {
    OutOfMem,
    InvlOp,
    Unknown,
}

/// The registers of a thread.
#[derive(Debug, Clone, Copy, PartialEq, Eq, Structural)]
pub struct Registers {
    pub rip: u64,
    pub rsp: u64,
    /// Where the stack starts during a system call.
    pub call_rsp: u64,
    /// The privilege that the thread runs with.
    pub uid: PrivLevel,
    pub args: MsgArgs,
}

impl Registers {
    pub open spec fn with_priv(self, uid: PrivLevel) -> Registers {
        Registers { uid, ..self }
    }

    /// The registers at the top of an empty stack. A word is left free above.
    pub open spec fn with_stack(self, stack: Stack) -> Registers {
        Registers { rsp: (stack.spec_top() - 8) as u64, ..self }
    }

    pub open spec fn with_msg_args(self, args: MsgArgs) -> Registers {
        Registers { args, ..self }
    }

    pub open spec fn with_call_stack(self, stack: Stack) -> Registers {
        Registers { call_rsp: (stack.spec_top() - 8) as u64, ..self }
    }

    /// Runs with this privilege.
    pub fn apply_priv(&mut self, uid: PrivLevel)
        ensures
            *final(self) == old(self).with_priv(uid),
    {
        self.uid = uid;
    }

    /// Starts at the top of the stack.
    pub fn apply_stack(&mut self, stack: &Stack)
        requires
            stack.wf(),
            stack.spec_top() >= 8,
        ensures
            *final(self) == old(self).with_stack(*stack),
    {
        self.rsp = stack.top() - 8;
    }

    /// Holds what a message hands over.
    pub fn apply_msg_args(&mut self, args: &MsgArgs)
        ensures
            *final(self) == old(self).with_msg_args(*args),
    {
        self.args = *args;
    }
}

} // verus!
