//! Threads: their states, their stacks, and how they move between the queues.
use vstd::prelude::*;
use crate::mem::addr::{Allocation, VirtRange, PAGE_SIZE};
use crate::mem::layout;
use crate::mem::mapper;
use crate::mem::mapper::VirtMapper;
use crate::mem::page_table::FrameAllocator;
use crate::sched::list;
use crate::sched::list::ThreadList;
use crate::sched::regs::{MsgArgs, PrivLevel, Registers, SysErr};
use crate::sched::stack;
use crate::sched::stack::{Stack, StackError};

verus! {

/// A connection of a process.
#[derive(Debug, Clone, Copy, PartialEq, Eq, PartialOrd, Ord, Structural)]
pub struct ConnPid {
    pub conn_id: usize,
    pub pid: usize,
}

/// What a thread does or waits for.
#[derive(Debug, Clone, Copy, PartialEq, Eq, PartialOrd, Ord, Structural)]
pub enum ThreadState {
    Running,
    Ready,
    Destroy,
    /// The time to sleep until, in nanoseconds.
    Sleep(u64),
    /// The thread that is waited for.
    Join(usize),
    /// The address that is waited on.
    FutexBlock(usize),
    /// The connection from which a reply is waited for.
    Listening(ConnPid),
}

impl ThreadState {
    pub open spec fn proc_local(self) -> bool {
        self is Join || self is FutexBlock
    }

    /// Whether threads in this state wait in a queue of their process.
    pub fn is_proc_local(&self) -> (local: bool)
        ensures
            local == self.proc_local(),
            match *self {
                ThreadState::Running => !local,
                ThreadState::Ready => !local,
                ThreadState::Destroy => !local,
                ThreadState::Sleep(_) => !local,
                ThreadState::Join(_) => local,
                ThreadState::FutexBlock(_) => local,
                ThreadState::Listening(_) => !local,
            },
    {
        matches!(self, ThreadState::Join(_) | ThreadState::FutexBlock(_))
    }

    pub fn sleep_nsec(&self) -> (nsec: Option<u64>)
        ensures
            nsec == match *self {
                ThreadState::Sleep(nsec) => Some(nsec),
                _ => None::<u64>,
            },
    {
        match self {
            ThreadState::Sleep(nsec) => Some(*nsec),
            _ => None,
        }
    }

    pub fn join_tid(&self) -> (tid: Option<usize>)
        ensures
            tid == match *self {
                ThreadState::Join(tid) => Some(tid),
                _ => None::<usize>,
            },
    {
        match self {
            ThreadState::Join(tid) => Some(*tid),
            _ => None,
        }
    }

    pub fn futex_wait_addr(&self) -> (addr: Option<usize>)
        ensures
            addr == match *self {
                ThreadState::FutexBlock(addr) => Some(addr),
                _ => None::<usize>,
            },
    {
        match self {
            ThreadState::FutexBlock(addr) => Some(*addr),
            _ => None,
        }
    }
}

/// The registers and the stack that a thread goes back to after it has answered a
/// message.
#[derive(Debug)]
pub struct ConnSaveState {
    pub regs: Registers,
    pub stack: Stack,
}

impl ConnSaveState {
    pub fn new(regs: Registers, stack: Stack) -> (save_state: ConnSaveState)
        ensures
            save_state == (ConnSaveState { regs, stack }),
    {
        ConnSaveState { regs, stack }
    }
}

/// What there is to know of a thread.
#[verifier::ext_equal]
pub struct ThreadView {
    pub tid: usize,
    pub name: Seq<char>,
    pub state: ThreadState,
    /// For how many nanoseconds the thread has run.
    pub run_time: u64,
    pub regs: Registers,
    pub stack: Stack,
    /// The stack for system calls.
    pub kstack: Option<Stack>,
    /// What the thread goes back to, the last message last.
    pub conn_data: Seq<ConnSaveState>,
    /// The registers that the thread goes on with after a message.
    pub rcv_regs: Result<Registers, SysErr>,
}

impl ThreadView {
    /// The stacks can be used.
    pub open spec fn wf(self) -> bool {
        &&& self.stack.wf()
        &&& self.kstack matches Some(stack) ==> stack is Kernel && stack.wf()
    }

    /// The thread after it was handed a message, which it handles on a new stack.
    pub open spec fn pushed(self, args: MsgArgs, stack: Stack) -> ThreadView {
        ThreadView {
            stack,
            conn_data: self.conn_data.push(ConnSaveState { regs: self.regs, stack: self.stack }),
            rcv_regs: Ok(self.regs.with_msg_args(args).with_stack(stack)),
            ..self
        }
    }

    /// The thread after it has answered a message.
    pub open spec fn popped(self) -> ThreadView {
        ThreadView {
            stack: self.conn_data.last().stack,
            conn_data: self.conn_data.drop_last(),
            rcv_regs: Ok(self.conn_data.last().regs),
            ..self
        }
    }
}

/// A thread that has answered a message is where it was before the message, and goes
/// on with the registers that it had then.
pub proof fn lemma_pop_undoes_push(thread: ThreadView, args: MsgArgs, stack: Stack)
    ensures
        thread.pushed(args, stack).popped() == (ThreadView {
            rcv_regs: Ok(thread.regs),
            ..thread
        }),
{
    let save_state = ConnSaveState { regs: thread.regs, stack: thread.stack };
    assert(thread.conn_data.push(save_state).drop_last() =~= thread.conn_data);
}

/// When a sleep of `nanos` nanoseconds ends. Whole multiples of the longest time that
/// can be told are dropped.
pub open spec fn sleep_end(now: u64, nanos: u128) -> int {
    now + nanos % 0x1_0000_0000_0000_0000
}

/// A thread.
#[derive(Debug)]
pub struct Thread {
    tid: usize,
    name: String,
    state: ThreadState,
    run_time: u64,
    pub regs: Registers,
    stack: Stack,
    kstack: Option<Stack>,
    conn_data: Vec<ConnSaveState>,
    msg_recieve_regs: Result<Registers, SysErr>,
}

impl View for Thread {
    type V = ThreadView;

    closed spec fn view(&self) -> ThreadView {
        ThreadView {
            tid: self.tid,
            name: self.name@,
            state: self.state,
            run_time: self.run_time,
            regs: self.regs,
            stack: self.stack,
            kstack: self.kstack,
            conn_data: self.conn_data@,
            rcv_regs: self.msg_recieve_regs,
        }
    }
}

/// A thread that is being made, and that waits for memory.
#[derive(Debug)]
pub struct ThreadBuilder {
    pub tid: usize,
    pub name: String,
    pub regs: Registers,
    pub uid: PrivLevel,
    pub stack_size: u64,
    pub kstack_size: u64,
    /// The stack of a thread that still needs one for system calls.
    pub stack: Option<Stack>,
}

/// How far a thread is made.
#[derive(Debug)]
pub enum BuildStep {
    /// More memory is needed.
    Ask(ThreadBuilder),
    Done(Thread),
}

/// Whether the top word of a stack can be left free.
pub open spec fn has_top_word(stack: Stack) -> bool {
    stack.wf() && stack.spec_top() >= 8
}

impl ThreadBuilder {
    pub open spec fn wf(self) -> bool {
        &&& self.stack is None && self.uid != PrivLevel::Kernel ==> self.stack_size + PAGE_SIZE - 1
            <= u64::MAX
        &&& self.stack matches Some(stack) ==> self.uid != PrivLevel::Kernel && has_top_word(stack)
    }

    /// How much memory is needed next.
    pub open spec fn spec_request(self) -> u64 {
        if self.stack is Some {
            self.kstack_size
        } else if self.uid == PrivLevel::Kernel {
            self.stack_size
        } else {
            layout::page_ceil(self.stack_size)
        }
    }

    /// Whether the thread can be made with this memory.
    pub open spec fn accepts<T: FrameAllocator>(
        self,
        mem: Allocation,
        mapper: VirtMapper<T>,
    ) -> bool {
        if self.stack is None && self.uid != PrivLevel::Kernel {
            mem.wf() && stack::room_for(mapper, mem)
        } else {
            has_top_word(Stack::Kernel(mem))
        }
    }

    /// The thread with these stacks.
    pub open spec fn finished(self, stack: Stack, kstack: Option<Stack>) -> ThreadView {
        let regs = match kstack {
            Some(kstack) => self.regs.with_call_stack(kstack),
            None => self.regs,
        };
        ThreadView {
            tid: self.tid,
            name: self.name@,
            state: ThreadState::Ready,
            run_time: 0,
            regs: regs.with_priv(self.uid).with_stack(stack),
            stack,
            kstack,
            conn_data: Seq::empty(),
            rcv_regs: Err(SysErr::Unknown),
        }
    }

    /// How much memory the zone manager has to be asked for next.
    pub fn request(&self) -> (size: u64)
        requires
            self.wf(),
        ensures
            size == self.spec_request(),
    {
        if self.stack.is_some() {
            self.kstack_size
        } else {
            match self.uid {
                PrivLevel::Kernel => self.stack_size,
                _ => Stack::user_request(self.stack_size),
            }
        }
    }

    /// Goes on with what the zone manager answered to the request. A thread of the
    /// kernel is done once it has its stack; any other then needs a stack for system
    /// calls. Where that cannot be had, the first stack is not given back.
    pub fn step<T: FrameAllocator>(
        self,
        mem: Option<Allocation>,
        mapper: &mut VirtMapper<T>,
        flush: &mut Vec<u64>,
    ) -> (step: Result<BuildStep, StackError>)
        requires
            self.wf(),
            old(mapper).wf(),
            mem matches Some(m) ==> self.accepts(m, *old(mapper)),
        ensures
            final(mapper).wf(),
            self.stack is None && self.uid != PrivLevel::Kernel ==> match step {
                Ok(BuildStep::Ask(builder)) => {
                    &&& mem is Some
                    &&& builder.stack is Some
                    &&& builder.wf()
                    &&& builder == (ThreadBuilder { stack: builder.stack, ..self })
                    &&& stack::is_new_user_stack(
                        *old(mapper),
                        *final(mapper),
                        mem->0,
                        builder.stack->0,
                        old(flush)@,
                        final(flush)@,
                    )
                },
                Ok(BuildStep::Done(_)) => false,
                Err(e) => {
                    &&& *final(mapper) == *old(mapper)
                    &&& final(flush)@ == old(flush)@
                    &&& stack::is_stack_error(*old(mapper), mem, e)
                },
            },
            self.stack is Some || self.uid == PrivLevel::Kernel ==> {
                &&& *final(mapper) == *old(mapper)
                &&& final(flush)@ == old(flush)@
                &&& match mem {
                    Some(m) => {
                        &&& step matches Ok(BuildStep::Done(thread))
                        &&& thread@ == match self.stack {
                            Some(stack) => self.finished(stack, Some(Stack::Kernel(m))),
                            None => self.finished(Stack::Kernel(m), None),
                        }
                        &&& thread@.wf()
                    },
                    None => step == Err::<BuildStep, StackError>(StackError::OutOfMem),
                }
            },
    {
        let mut regs = self.regs;
        let uid = self.uid;
        match self.stack {
            None => match uid {
                PrivLevel::Kernel => {
                    let stack = match Stack::kernel_new(mem) {
                        Ok(stack) => stack,
                        Err(e) => {
                            return Err(e);
                        },
                    };
                    regs.apply_priv(uid);
                    regs.apply_stack(&stack);
                    Ok(BuildStep::Done(Thread::create(self.tid, self.name, regs, stack, None)))
                },
                _ => {
                    let stack = match Stack::user_new(self.stack_size, mem, mapper, flush) {
                        Ok(stack) => stack,
                        Err(e) => {
                            return Err(e);
                        },
                    };
                    let builder = ThreadBuilder { stack: Some(stack), ..self };
                    Ok(BuildStep::Ask(builder))
                },
            },
            Some(stack) => {
                let kstack = match Stack::kernel_new(mem) {
                    Ok(kstack) => kstack,
                    Err(e) => {
                        return Err(e);
                    },
                };
                regs.call_rsp = kstack.top() - 8;
                regs.apply_priv(uid);
                regs.apply_stack(&stack);
                Ok(BuildStep::Done(Thread::create(self.tid, self.name, regs, stack, Some(kstack))))
            },
        }
    }
}

/// For a thread of the kernel the size of the stack for system calls does not matter: it
/// asks for the same memory, takes the same memory and is the same thread in the end. It
/// has no stack for system calls, and its register for one is left alone.
pub proof fn lemma_kernel_ignores_kstack_size<T: FrameAllocator>(
    builder: ThreadBuilder,
    kstack_size: u64,
    mem: Allocation,
    mapper: VirtMapper<T>,
)
    requires
        builder.uid == PrivLevel::Kernel,
        builder.wf(),
    ensures
        ({
            let other = ThreadBuilder { kstack_size, ..builder };
            let thread = builder.finished(Stack::Kernel(mem), None);
            &&& other.wf()
            &&& other.spec_request() == builder.spec_request()
            &&& other.accepts(mem, mapper) == builder.accepts(mem, mapper)
            &&& other.finished(Stack::Kernel(mem), None) == thread
            &&& thread.kstack is None
            &&& thread.regs.call_rsp == builder.regs.call_rsp
        }),
{
}

impl Thread {
    fn create(
        tid: usize,
        name: String,
        regs: Registers,
        stack: Stack,
        kstack: Option<Stack>,
    ) -> (thread: Thread)
        ensures
            thread@ == (ThreadView {
                tid,
                name: name@,
                state: ThreadState::Ready,
                run_time: 0,
                regs,
                stack,
                kstack,
                conn_data: Seq::empty(),
                rcv_regs: Err(SysErr::Unknown),
            }),
    {
        Thread {
            tid,
            name,
            state: ThreadState::Ready,
            run_time: 0,
            regs,
            stack,
            kstack,
            conn_data: Vec::new(),
            msg_recieve_regs: Err(SysErr::Unknown),
        }
    }

    /// Starts to make a thread with stacks of the default sizes.
    pub fn new(tid: usize, name: String, regs: Registers, uid: PrivLevel) -> (builder:
        ThreadBuilder)
        ensures
            builder == (ThreadBuilder {
                tid,
                name,
                regs,
                uid,
                stack_size: Stack::DEFAULT_SIZE,
                kstack_size: Stack::DEFAULT_KERNEL_SIZE,
                stack: None,
            }),
            builder.wf(),
    {
        Thread::new_stack_size(
            tid,
            name,
            regs,
            uid,
            Stack::DEFAULT_SIZE,
            Stack::DEFAULT_KERNEL_SIZE,
        )
    }

    /// Starts to make a thread. A thread of the kernel has one stack, of `stack_size`
    /// bytes. The thread is not put into a queue.
    pub fn new_stack_size(
        tid: usize,
        name: String,
        regs: Registers,
        uid: PrivLevel,
        stack_size: u64,
        kstack_size: u64,
    ) -> (builder: ThreadBuilder)
        ensures
            builder == (ThreadBuilder {
                tid,
                name,
                regs,
                uid,
                stack_size,
                kstack_size,
                stack: None,
            }),
    {
        ThreadBuilder { tid, name, regs, uid, stack_size, kstack_size, stack: None }
    }

    /// A thread of the kernel on a stack that is there already.
    pub fn from_stack(tid: usize, name: String, regs: Registers, range: VirtRange) -> (thread:
        Result<Thread, StackError>)
        requires
            has_top_word(Stack::KernelNoAlloc(range)),
        ensures
            thread matches Ok(t) && t@.wf() && t@ == (ThreadView {
                tid,
                name: name@,
                state: ThreadState::Ready,
                run_time: 0,
                regs: regs.with_priv(PrivLevel::Kernel).with_stack(Stack::KernelNoAlloc(range)),
                stack: Stack::KernelNoAlloc(range),
                kstack: None,
                conn_data: Seq::empty(),
                rcv_regs: Err(SysErr::Unknown),
            }),
    {
        let mut regs = regs;
        let stack = Stack::no_alloc_new(range);
        regs.apply_priv(PrivLevel::Kernel);
        regs.apply_stack(&stack);
        Ok(Thread::create(tid, name, regs, stack, None))
    }

    pub fn tid(&self) -> (tid: usize)
        ensures
            tid == self@.tid,
    {
        self.tid
    }

    pub fn name(&self) -> (name: &str)
        ensures
            name@ == self@.name,
    {
        self.name.as_str()
    }

    pub fn state(&self) -> (state: ThreadState)
        ensures
            state == self@.state,
    {
        self.state
    }

    pub fn set_state(&mut self, state: ThreadState)
        ensures
            final(self)@ == (ThreadView { state, ..old(self)@ }),
    {
        self.state = state;
    }

    pub fn regs(&self) -> (regs: Registers)
        ensures
            regs == self@.regs,
    {
        self.regs
    }

    pub fn set_regs(&mut self, regs: Registers)
        ensures
            final(self)@ == (ThreadView { regs, ..old(self)@ }),
    {
        self.regs = regs;
    }

    /// The registers that the thread goes on with after a message.
    pub fn rcv_regs(&self) -> (regs: &Result<Registers, SysErr>)
        ensures
            *regs == self@.rcv_regs,
    {
        &self.msg_recieve_regs
    }

    /// The stack that the thread runs on.
    pub fn stack(&self) -> (stack: Stack)
        ensures
            stack == self@.stack,
    {
        self.stack
    }

    /// Handles a message on a new stack. `mem` is what the zone manager answered to the
    /// request for the memory of a user stack of the default size. What the thread did
    /// before is saved.
    pub fn push_conn_state<T: FrameAllocator>(
        &mut self,
        args: &MsgArgs,
        mem: Option<Allocation>,
        mapper: &mut VirtMapper<T>,
        flush: &mut Vec<u64>,
    ) -> (result: Result<(), SysErr>)
        requires
            old(mapper).wf(),
            mem matches Some(m) ==> m.wf() && stack::room_for(*old(mapper), m),
        ensures
            final(mapper).wf(),
            old(self)@.wf() ==> final(self)@.wf(),
            match result {
                Ok(_) => {
                    &&& mem is Some
                    &&& stack::is_new_user_stack(
                        *old(mapper),
                        *final(mapper),
                        mem->0,
                        final(self)@.stack,
                        old(flush)@,
                        final(flush)@,
                    )
                    &&& final(self)@ == old(self)@.pushed(*args, final(self)@.stack)
                },
                Err(e) => {
                    &&& e == SysErr::OutOfMem
                    &&& final(self)@ == old(self)@
                    &&& *final(mapper) == *old(mapper)
                    &&& final(flush)@ == old(flush)@
                    &&& exists|error: StackError|
                        #[trigger] stack::is_stack_error(*old(mapper), mem, error)
                },
            },
    {
        let new_stack = match Stack::user_new(Stack::DEFAULT_SIZE, mem, mapper, flush) {
            Ok(stack) => stack,
            Err(_) => {
                return Err(SysErr::OutOfMem);
            },
        };
        let regs = self.regs;
        let mut new_regs = regs;
        new_regs.apply_msg_args(args);
        new_regs.apply_stack(&new_stack);
        let old_stack = self.stack;
        self.stack = new_stack;
        let save_state = ConnSaveState::new(regs, old_stack);
        self.conn_data.push(save_state);
        self.msg_recieve_regs = Ok(new_regs);
        Ok(())
    }

    /// Whether the thread handles a message, and goes back to something else then.
    pub fn has_saved_state(&self) -> (saved: bool)
        ensures
            saved == (self@.conn_data.len() > 0),
    {
        self.conn_data.len() > 0
    }

    /// Goes back to what the thread did before the last message, and hands back the
    /// memory of the stack that the message was handled on.
    pub fn pop_conn_state<T: FrameAllocator>(
        &mut self,
        mapper: &mut VirtMapper<T>,
        flush: &mut Vec<u64>,
    ) -> (result: Result<Vec<Allocation>, SysErr>)
        requires
            old(mapper).wf(),
            old(self)@.conn_data.len() > 0 ==> old(self)@.stack.is_mapped_in(*old(mapper)),
        ensures
            final(mapper).wf(),
            match result {
                Ok(mem) => {
                    let stack = old(self)@.stack;
                    &&& old(self)@.conn_data.len() > 0
                    &&& final(self)@ == old(self)@.popped()
                    &&& mem@ == stack.memory(*old(mapper))
                    &&& stack.is_unmapped(
                        *old(mapper),
                        *final(mapper),
                        old(flush)@,
                        final(flush)@,
                    )
                },
                Err(e) => {
                    &&& e == SysErr::InvlOp
                    &&& old(self)@.conn_data.len() == 0
                    &&& final(self)@ == old(self)@
                    &&& *final(mapper) == *old(mapper)
                    &&& final(flush)@ == old(flush)@
                },
            },
    {
        let save_state = match self.conn_data.pop() {
            Some(save_state) => save_state,
            None => {
                return Err(SysErr::InvlOp);
            },
        };
        self.msg_recieve_regs = Ok(save_state.regs);
        let old_stack = self.stack;
        self.stack = save_state.stack;
        Ok(old_stack.dealloc(mapper, flush))
    }

    /// What comes before the running thread blocks: the address of the futex for which its
    /// process makes a queue, if there is one to be made. `alive` tells whether the process
    /// is alive; the scheduler destroys a thread whose process is not.
    pub fn prepare_block(&self, state: ThreadState, alive: bool) -> (futex_addr: Option<usize>)
        ensures
            futex_addr == match state {
                ThreadState::FutexBlock(addr) => if alive {
                    Some(addr)
                } else {
                    None::<usize>
                },
                _ => None::<usize>,
            },
    {
        match state {
            ThreadState::FutexBlock(addr) => if alive {
                Some(addr)
            } else {
                None
            },
            _ => None,
        }
    }

    /// Blocks the running thread, for which everything is prepared. Tells whether the
    /// scheduler is to be called, which is not so where the thread goes on running.
    pub fn block(&mut self, state: ThreadState) -> (blocked: bool)
        ensures
            blocked == (state != ThreadState::Running),
            final(self)@ == if state == ThreadState::Running {
                old(self)@
            } else {
                ThreadView { state, ..old(self)@ }
            },
    {
        match state {
            ThreadState::Running => {
                return false;
            },
            _ => {},
        }
        self.set_state(state);
        true
    }

    /// Lets the running thread sleep for `nanos` nanoseconds from `now`. Tells that the
    /// scheduler is to be called.
    pub fn sleep(&mut self, now: u64, nanos: u128) -> (blocked: bool)
        requires
            sleep_end(now, nanos) <= u64::MAX,
        ensures
            blocked,
            final(self)@ == (ThreadView {
                state: ThreadState::Sleep(sleep_end(now, nanos) as u64),
                ..old(self)@
            }),
    {
        assert(nanos as u64 == nanos % 0x1_0000_0000_0000_0000) by (bit_vector);
        self.sleep_until(now + nanos as u64)
    }

    /// Lets the running thread sleep until `nsec`. Tells that the scheduler is to be
    /// called.
    pub fn sleep_until(&mut self, nsec: u64) -> (blocked: bool)
        ensures
            blocked,
            final(self)@ == (ThreadView { state: ThreadState::Sleep(nsec), ..old(self)@ }),
    {
        self.block(ThreadState::Sleep(nsec))
    }

    /// For how many nanoseconds the thread has run.
    pub fn run_time(&self) -> (nsec: u64)
        ensures
            nsec == self@.run_time,
    {
        self.run_time
    }

    /// Counts time that the thread has run. The count starts over at its limit.
    pub fn inc_time(&mut self, nsec: u64)
        ensures
            final(self)@ == (ThreadView {
                run_time: ((old(self)@.run_time + nsec) % 0x1_0000_0000_0000_0000) as u64,
                ..old(self)@
            }),
    {
        self.run_time = self.run_time.wrapping_add(nsec);
    }

    /// The id by which a thread that is no longer needed leaves its process, where there
    /// still is a process to leave. `alive` tells whether the process is alive.
    pub fn leaves_process(&self, alive: bool) -> (tid: Option<usize>)
        ensures
            tid == if alive {
                Some(self@.tid)
            } else {
                None::<usize>
            },
    {
        if alive {
            Some(self.tid)
        } else {
            None
        }
    }

    /// Puts the threads that wait for this one at the end of the queue of those that are
    /// ready, and hands them out, so that their states can be set. Nothing is done where the
    /// thread's process is no longer alive, or a list is not at hand.
    pub fn ready_waiting(
        &self,
        alive: bool,
        gtlist: Option<&mut ThreadList>,
        proctlist: Option<&mut ThreadList>,
    ) -> (ptrs: Vec<u64>)
        ensures
            ({
                let join = ThreadState::Join(self@.tid);
                let wakes = alive && gtlist is Some && proctlist is Some;
                &&& ptrs@ == if wakes {
                    list::queue(proctlist->0@, join)
                } else {
                    Seq::<u64>::empty()
                }
                &&& gtlist matches Some(l) ==> final(l)@ == l@ + list::in_state(
                    ptrs@,
                    ThreadState::Ready,
                )
                &&& proctlist matches Some(l) ==> final(l)@ == if wakes {
                    list::without_queue(l@, join)
                } else {
                    l@
                }
            }),
    {
        match (gtlist, proctlist) {
            (Some(g), Some(p)) => {
                let ghost ready = g@;
                assert(ready + list::in_state(Seq::empty(), ThreadState::Ready) =~= ready);
                if !alive {
                    return Vec::new();
                }
                let ptrs = p.take_queue(ThreadState::Join(self.tid));
                let mut i: usize = 0;
                assert(ptrs@.take(0) =~= Seq::empty());
                while i < ptrs.len()
                    invariant
                        0 <= i <= ptrs@.len(),
                        g@ == ready + list::in_state(ptrs@.take(i as int), ThreadState::Ready),
                    decreases ptrs@.len() - i,
                {
                    g.push(ThreadState::Ready, ptrs[i]);
                    i = i + 1;
                    assert(g@ =~= ready + list::in_state(
                        ptrs@.take(i as int),
                        ThreadState::Ready,
                    ));
                }
                assert(ptrs@.take(i as int) =~= ptrs@);
                ptrs
            },
            (Some(g), None) => {
                assert(g@ + list::in_state(Seq::empty(), ThreadState::Ready) =~= g@);
                Vec::new()
            },
            _ => Vec::new(),
        }
    }

    /// Gives the stacks of a thread back that is no longer needed, and hands back their
    /// memory. Where the thread's process is no longer alive there is no mapper, and
    /// nothing is done.
    pub fn dealloc<T: FrameAllocator>(
        &self,
        mapper: Option<&mut VirtMapper<T>>,
        flush: &mut Vec<u64>,
    ) -> (mem: Vec<Allocation>)
        requires
            self@.wf(),
            mapper matches Some(m) ==> m.wf() && self@.stack.is_mapped_in(*m),
        ensures
            mapper matches Some(m) ==> {
                &&& final(m).wf()
                &&& self@.stack.is_unmapped(*m, *final(m), old(flush)@, final(flush)@)
                &&& mem@ == self@.stack.memory(*m) + match self@.kstack {
                    Some(kstack) => seq![kstack->Kernel_0],
                    None => Seq::empty(),
                }
            },
            mapper is None ==> mem@ == Seq::<Allocation>::empty() && final(flush)@ == old(flush)@,
    {
        match mapper {
            Some(mapper) => {
                let mut mem = self.stack.dealloc(mapper, flush);
                match self.kstack {
                    Some(kstack) => {
                        let mut kernel_mem = kstack.dealloc(mapper, flush);
                        mem.append(&mut kernel_mem);
                    },
                    None => {
                        assert(mem@ + Seq::<Allocation>::empty() =~= mem@);
                    },
                }
                mem
            },
            None => Vec::new(),
        }
    }
}

/// Whether a thread can be taken out of the queue of a state, or be put into it: the
/// queue has to be at hand, and for a queue of the process the process has to be alive.
pub open spec fn can_reach(
    state: ThreadState,
    alive: bool,
    has_gtlist: bool,
    has_proctlist: bool,
) -> bool {
    if state.proc_local() {
        alive && has_proctlist
    } else {
        has_gtlist
    }
}

/// A list without a thread that leaves it.
pub open spec fn without(
    nodes: Seq<(ThreadState, u64)>,
    leaves: bool,
    state: ThreadState,
    ptr: u64,
) -> Seq<(ThreadState, u64)> {
    if leaves {
        nodes.remove(list::position(nodes, state, ptr))
    } else {
        nodes
    }
}

/// A list with a thread that enters it.
pub open spec fn with(
    nodes: Seq<(ThreadState, u64)>,
    enters: bool,
    state: ThreadState,
    ptr: u64,
) -> Seq<(ThreadState, u64)> {
    if enters {
        nodes.push((state, ptr))
    } else {
        nodes
    }
}

impl Thread {
    /// Takes the thread out of the queue that it waits in. `ptr` is the address by which
    /// the queues know the thread, and comes back as an error where the queue cannot be
    /// reached.
    pub fn remove_from_current(
        &self,
        ptr: u64,
        alive: bool,
        gtlist: Option<&mut ThreadList>,
        proctlist: Option<&mut ThreadList>,
    ) -> (result: Result<u64, u64>)
        requires
            gtlist matches Some(l) ==> (!self@.state.proc_local() ==> l@.contains(
                (self@.state, ptr),
            )),
            proctlist matches Some(l) ==> (self@.state.proc_local() && alive ==> l@.contains(
                (self@.state, ptr),
            )),
        ensures
            result == if can_reach(self@.state, alive, gtlist is Some, proctlist is Some) {
                Ok::<u64, u64>(ptr)
            } else {
                Err(ptr)
            },
            gtlist matches Some(l) ==> final(l)@ == without(
                l@,
                !self@.state.proc_local(),
                self@.state,
                ptr,
            ),
            proctlist matches Some(l) ==> final(l)@ == without(
                l@,
                self@.state.proc_local() && alive,
                self@.state,
                ptr,
            ),
    {
        let state = self.state();
        if !state.is_proc_local() {
            match gtlist {
                Some(list) => {
                    list.remove_node(state, ptr);
                    Ok(ptr)
                },
                None => Err(ptr),
            }
        } else if alive {
            match proctlist {
                Some(list) => {
                    list.remove_node(state, ptr);
                    Ok(ptr)
                },
                None => Err(ptr),
            }
        } else {
            Err(ptr)
        }
    }

    /// Puts the thread at the end of the queue of its state.
    pub fn insert_into(
        &self,
        ptr: u64,
        alive: bool,
        gtlist: Option<&mut ThreadList>,
        proctlist: Option<&mut ThreadList>,
    ) -> (result: Result<u64, u64>)
        ensures
            result == if can_reach(self@.state, alive, gtlist is Some, proctlist is Some) {
                Ok::<u64, u64>(ptr)
            } else {
                Err(ptr)
            },
            gtlist matches Some(l) ==> final(l)@ == with(
                l@,
                !self@.state.proc_local(),
                self@.state,
                ptr,
            ),
            proctlist matches Some(l) ==> final(l)@ == with(
                l@,
                self@.state.proc_local() && alive,
                self@.state,
                ptr,
            ),
            result is Ok ==> match self@.state {
                ThreadState::Join(_) | ThreadState::FutexBlock(_) => proctlist matches Some(l)
                    && final(l)@ == l@.push((self@.state, ptr)),
                ThreadState::Running | ThreadState::Ready | ThreadState::Destroy
                | ThreadState::Sleep(_) | ThreadState::Listening(_) => gtlist matches Some(l)
                    && final(l)@ == l@.push((self@.state, ptr)),
            },
    {
        let state = self.state();
        if !state.is_proc_local() {
            match gtlist {
                Some(list) => {
                    list.push(state, ptr);
                    Ok(ptr)
                },
                None => Err(ptr),
            }
        } else if alive {
            match proctlist {
                Some(list) => {
                    list.push(state, ptr);
                    Ok(ptr)
                },
                None => Err(ptr),
            }
        } else {
            Err(ptr)
        }
    }

    /// Moves the thread from the queue of its state to that of another, and sets its
    /// state. Where the first queue cannot be reached, nothing happens; where only the
    /// second cannot be, the thread is in no queue then.
    pub fn move_to(
        &mut self,
        ptr: u64,
        state: ThreadState,
        alive: bool,
        gtlist: Option<&mut ThreadList>,
        proctlist: Option<&mut ThreadList>,
    ) -> (result: Result<u64, u64>)
        requires
            gtlist matches Some(l) ==> (!old(self)@.state.proc_local() ==> l@.contains(
                (old(self)@.state, ptr),
            )),
            proctlist matches Some(l) ==> (old(self)@.state.proc_local() && alive ==> l@.contains(
                (old(self)@.state, ptr),
            )),
        ensures
            ({
                let from = old(self)@.state;
                let leaves = can_reach(from, alive, gtlist is Some, proctlist is Some);
                let enters = leaves && can_reach(
                    state,
                    alive,
                    gtlist is Some,
                    proctlist is Some,
                );
                &&& result == if enters {
                    Ok::<u64, u64>(ptr)
                } else {
                    Err(ptr)
                }
                &&& final(self)@ == if leaves {
                    ThreadView { state, ..old(self)@ }
                } else {
                    old(self)@
                }
                &&& gtlist matches Some(l) ==> final(l)@ == moved(
                    l@,
                    leaves && !from.proc_local(),
                    enters && !state.proc_local(),
                    from,
                    state,
                    ptr,
                )
                &&& proctlist matches Some(l) ==> final(l)@ == moved(
                    l@,
                    leaves && from.proc_local(),
                    enters && state.proc_local(),
                    from,
                    state,
                    ptr,
                )
                &&& result is Ok ==> match state {
                    ThreadState::Join(_) | ThreadState::FutexBlock(_) => proctlist matches Some(l)
                        && final(l)@.len() > 0 && final(l)@.last() == (state, ptr),
                    ThreadState::Running | ThreadState::Ready | ThreadState::Destroy
                    | ThreadState::Sleep(_) | ThreadState::Listening(_) => gtlist matches Some(l)
                        && final(l)@.len() > 0 && final(l)@.last() == (state, ptr),
                }
            }),
    {
        match (gtlist, proctlist) {
            (Some(g), Some(p)) => {
                match self.remove_from_current(ptr, alive, Some(&mut *g), Some(&mut *p)) {
                    Ok(ptr) => {
                        self.set_state(state);
                        self.insert_into(ptr, alive, Some(g), Some(p))
                    },
                    Err(ptr) => Err(ptr),
                }
            },
            (Some(g), None) => {
                match self.remove_from_current(ptr, alive, Some(&mut *g), None) {
                    Ok(ptr) => {
                        self.set_state(state);
                        self.insert_into(ptr, alive, Some(g), None)
                    },
                    Err(ptr) => Err(ptr),
                }
            },
            (None, Some(p)) => {
                match self.remove_from_current(ptr, alive, None, Some(&mut *p)) {
                    Ok(ptr) => {
                        self.set_state(state);
                        self.insert_into(ptr, alive, None, Some(p))
                    },
                    Err(ptr) => Err(ptr),
                }
            },
            (None, None) => self.remove_from_current(ptr, alive, None, None),
        }
    }
}

/// Threads that were waiting for another are ready once they are readied: they stand at
/// the end of the queue of those that are ready, in their order, no thread waits for the
/// other any more, and all other queues stay as they are.
pub proof fn lemma_waiting_are_ready(
    g: Seq<(ThreadState, u64)>,
    p: Seq<(ThreadState, u64)>,
    tid: usize,
    other: ThreadState,
)
    ensures
        ({
            let join = ThreadState::Join(tid);
            let ptrs = list::queue(p, join);
            let g2 = g + list::in_state(ptrs, ThreadState::Ready);
            let p2 = list::without_queue(p, join);
            &&& list::queue(g2, ThreadState::Ready) == list::queue(g, ThreadState::Ready) + ptrs
            &&& list::queue(p2, join).len() == 0
            &&& other != ThreadState::Ready ==> list::queue(g2, other) == list::queue(g, other)
            &&& other != join ==> list::queue(p2, other) == list::queue(p, other)
        }),
{
    let join = ThreadState::Join(tid);
    let ptrs = list::queue(p, join);
    list::lemma_queue_enter(g, ptrs, ThreadState::Ready, ThreadState::Ready);
    list::lemma_queue_enter(g, ptrs, ThreadState::Ready, other);
    list::lemma_without_queue(p, join, join);
    list::lemma_without_queue(p, join, other);
}

/// A list from which a thread moves, or to which it moves.
pub open spec fn moved(
    nodes: Seq<(ThreadState, u64)>,
    leaves: bool,
    enters: bool,
    from: ThreadState,
    to: ThreadState,
    ptr: u64,
) -> Seq<(ThreadState, u64)> {
    with(without(nodes, leaves, from, ptr), enters, to, ptr)
}

/// Which list a thread enters is told by its new state: where it waits for a thread or on a
/// futex, it comes last in the list of its process, and in any other state it comes last in
/// the list for all processes. The other list gains nothing.
pub proof fn lemma_state_tells_list(
    g: Seq<(ThreadState, u64)>,
    p: Seq<(ThreadState, u64)>,
    from: ThreadState,
    to: ThreadState,
    ptr: u64,
)
    ensures
        ({
            let g1 = without(g, !from.proc_local(), from, ptr);
            let p1 = without(p, from.proc_local(), from, ptr);
            let g2 = moved(g, !from.proc_local(), !to.proc_local(), from, to, ptr);
            let p2 = moved(p, from.proc_local(), to.proc_local(), from, to, ptr);
            match to {
                ThreadState::Running => g2 == g1.push((to, ptr)) && p2 == p1,
                ThreadState::Ready => g2 == g1.push((to, ptr)) && p2 == p1,
                ThreadState::Destroy => g2 == g1.push((to, ptr)) && p2 == p1,
                ThreadState::Sleep(_) => g2 == g1.push((to, ptr)) && p2 == p1,
                ThreadState::Listening(_) => g2 == g1.push((to, ptr)) && p2 == p1,
                ThreadState::Join(_) => g2 == g1 && p2 == p1.push((to, ptr)),
                ThreadState::FutexBlock(_) => g2 == g1 && p2 == p1.push((to, ptr)),
            }
        }),
        match from {
            ThreadState::Running => !from.proc_local(),
            ThreadState::Ready => !from.proc_local(),
            ThreadState::Destroy => !from.proc_local(),
            ThreadState::Sleep(_) => !from.proc_local(),
            ThreadState::Listening(_) => !from.proc_local(),
            ThreadState::Join(_) => from.proc_local(),
            ThreadState::FutexBlock(_) => from.proc_local(),
        },
{
}

/// Whether a thread waits in the queue of its state, and nowhere else. `g` holds the
/// queues of all processes, `p` those of the thread's process.
pub open spec fn waits_once(
    g: Seq<(ThreadState, u64)>,
    p: Seq<(ThreadState, u64)>,
    state: ThreadState,
    ptr: u64,
) -> bool {
    &&& g.no_duplicates()
    &&& p.no_duplicates()
    &&& forall|s: ThreadState| #[trigger]
        g.contains((s, ptr)) <==> s == state && !state.proc_local()
    &&& forall|s: ThreadState| #[trigger] p.contains((s, ptr)) <==> s == state && state.proc_local()
}

#[verifier::rlimit(60)]
proof fn lemma_moved(
    nodes: Seq<(ThreadState, u64)>,
    leaves: bool,
    enters: bool,
    from: ThreadState,
    to: ThreadState,
    ptr: u64,
)
    requires
        nodes.no_duplicates(),
        forall|s: ThreadState| #[trigger] nodes.contains((s, ptr)) <==> s == from && leaves,
    ensures
        ({
            let after = moved(nodes, leaves, enters, from, to, ptr);
            &&& after.no_duplicates()
            &&& forall|s: ThreadState| #[trigger] after.contains((s, ptr)) <==> s == to && enters
            &&& forall|s: ThreadState, q: u64|
                q != ptr ==> (#[trigger] after.contains((s, q)) <==> nodes.contains((s, q)))
        }),
{
    let middle = without(nodes, leaves, from, ptr);
    let after = moved(nodes, leaves, enters, from, to, ptr);
    let at = list::position(nodes, from, ptr);
    if leaves {
        assert(nodes.contains((from, ptr)));
        list::lemma_position(nodes, from, ptr);
        assert(middle.no_duplicates()) by {
            assert forall|i: int, j: int|
                0 <= i < middle.len() && 0 <= j < middle.len() && i != j implies middle[i]
                != middle[j] by {
                let k = if i < at { i } else { i + 1 };
                let l = if j < at { j } else { j + 1 };
                assert(middle[i] == nodes[k] && middle[j] == nodes[l]);
            }
        }
    }
    assert forall|s: ThreadState, q: u64| #[trigger]
        middle.contains((s, q)) <==> nodes.contains((s, q)) && q != ptr by {
        if middle.contains((s, q)) {
            let i = choose|i: int| 0 <= i < middle.len() && middle[i] == (s, q);
            let k = if leaves && i >= at { i + 1 } else { i };
            assert(nodes[k] == (s, q));
            if q == ptr {
                assert(nodes.contains((s, ptr)));
                assert(nodes[at] == nodes[k]);
            }
        }
        if nodes.contains((s, q)) && q != ptr {
            let k = choose|k: int| 0 <= k < nodes.len() && nodes[k] == (s, q);
            let i = if leaves && k > at { k - 1 } else { k };
            assert(middle[i] == (s, q));
        }
    }
    if enters {
        assert forall|s: ThreadState, q: u64| #[trigger]
            after.contains((s, q)) <==> middle.contains((s, q)) || (s, q) == (to, ptr) by {
            if after.contains((s, q)) {
                let i = choose|i: int| 0 <= i < after.len() && after[i] == (s, q);
                if i < middle.len() {
                    assert(middle[i] == (s, q));
                }
            }
            if middle.contains((s, q)) {
                let i = choose|i: int| 0 <= i < middle.len() && middle[i] == (s, q);
                assert(after[i] == (s, q));
            }
            assert(after[middle.len() as int] == (to, ptr));
        }
        assert(!middle.contains((to, ptr)));
        assert forall|i: int, j: int|
            0 <= i < after.len() && 0 <= j < after.len() && i != j implies after[i] != after[j] by {
            if i < middle.len() && j < middle.len() {
                assert(after[i] == middle[i] && after[j] == middle[j]);
            } else if i < middle.len() {
                assert(after[i] == middle[i]);
                assert(middle.contains(middle[i]));
            } else {
                assert(after[j] == middle[j]);
                assert(middle.contains(middle[j]));
            }
        }
    }
}

/// A thread that waited in the queue of its state alone waits, after it was moved, in
/// the queue of its new state alone, and all other threads wait where they did.
pub proof fn lemma_move_keeps_once(
    g: Seq<(ThreadState, u64)>,
    p: Seq<(ThreadState, u64)>,
    from: ThreadState,
    to: ThreadState,
    ptr: u64,
)
    requires
        waits_once(g, p, from, ptr),
    ensures
        ({
            let g2 = moved(g, !from.proc_local(), !to.proc_local(), from, to, ptr);
            let p2 = moved(p, from.proc_local(), to.proc_local(), from, to, ptr);
            &&& waits_once(g2, p2, to, ptr)
            &&& forall|s: ThreadState, q: u64|
                q != ptr ==> (#[trigger] g2.contains((s, q)) <==> g.contains((s, q)))
            &&& forall|s: ThreadState, q: u64|
                q != ptr ==> (#[trigger] p2.contains((s, q)) <==> p.contains((s, q)))
        }),
{
    lemma_moved(g, !from.proc_local(), !to.proc_local(), from, to, ptr);
    lemma_moved(p, from.proc_local(), to.proc_local(), from, to, ptr);
}

} // verus!
