//! What holds of the calls on threads, said of what goes into a call and what comes out.
//!
//! Each law takes the arguments and the results of calls, and that the calls gave these
//! results for these arguments.
use vstd::prelude::*;
use crate::mem::addr::{Allocation, VirtRange};
use crate::mem::flags;
use crate::mem::flags::{PageMappingFlags, PageTableFlags};
use crate::mem::layout;
use crate::mem::layout::{AllocType, VirtLayoutElement, VirtLayoutElementType};
use crate::mem::mapper;
use crate::mem::mapper::{MapError, VirtMapper};
use crate::mem::page_table::FrameAllocator;
use crate::mem::translate;
use crate::sched::futex::FutexMap;
use crate::sched::list;
use crate::sched::list::ThreadList;
use crate::sched::regs::{MsgArgs, PrivLevel, Registers, SysErr};
use crate::sched::stack;
use crate::sched::stack::{Stack, StackError};
use crate::sched::sys::{thread_block, thread_entry, thread_new, SyscallVals};
use crate::sched::thread::{BuildStep, ConnSaveState, Thread, ThreadBuilder, ThreadState, ThreadView};

verus! {

/// Threads that wait for a thread or on a futex wait in a queue of their process, and all
/// others in a queue for all processes.
pub proof fn lemma_which_states_are_local(state: ThreadState, local: bool)
    requires
        call_ensures(ThreadState::is_proc_local, (&state,), local),
    ensures
        match state {
            ThreadState::Running => !local,
            ThreadState::Ready => !local,
            ThreadState::Destroy => !local,
            ThreadState::Sleep(_) => !local,
            ThreadState::Join(_) => local,
            ThreadState::FutexBlock(_) => local,
            ThreadState::Listening(_) => !local,
        },
{
}

/// A state tells what it waits for, and nothing that it does not wait for.
pub proof fn lemma_what_states_tell(
    state: ThreadState,
    nsec: Option<u64>,
    tid: Option<usize>,
    addr: Option<usize>,
)
    requires
        call_ensures(ThreadState::sleep_nsec, (&state,), nsec),
        call_ensures(ThreadState::join_tid, (&state,), tid),
        call_ensures(ThreadState::futex_wait_addr, (&state,), addr),
    ensures
        nsec matches Some(n) ==> state == ThreadState::Sleep(n),
        tid matches Some(t) ==> state == ThreadState::Join(t),
        addr matches Some(a) ==> state == ThreadState::FutexBlock(a),
        nsec is Some <==> state is Sleep,
        tid is Some <==> state is Join,
        addr is Some <==> state is FutexBlock,
{
}

/// A thread that blocks for reason 2 sleeps until the time that it gives, and one that
/// blocks for reason 3 waits for the thread that it gives, whatever the number is.
pub proof fn lemma_blocks_until(
    vals: SyscallVals,
    thread: &mut Thread,
    blocked: bool,
    state: ThreadState,
    nsec: Option<u64>,
    tid: Option<usize>,
)
    requires
        call_ensures(thread_block, (&vals, thread), blocked),
        call_ensures(Thread::state, (&*final(thread),), state),
        call_ensures(ThreadState::sleep_nsec, (&state,), nsec),
        call_ensures(ThreadState::join_tid, (&state,), tid),
    ensures
        vals.a1 == 2 ==> blocked && (nsec matches Some(n) && n as int == vals.a2 as int),
        vals.a1 == 3 ==> blocked && (tid matches Some(t) && t as int == vals.a2 as int),
        vals.a1 == 1 ==> blocked && state is Destroy,
        vals.a1 == 0 || vals.a1 > 3 ==> !blocked && final(thread)@ == old(thread)@,
        final(thread)@ == (ThreadView { state: final(thread)@.state, ..old(thread)@ }),
{
}

/// A new thread starts where the caller says. The caller is told its id, or that there is
/// none.
pub proof fn lemma_new_thread_call<E>(
    before: SyscallVals,
    rip: usize,
    vals: &mut SyscallVals,
    made: Result<usize, E>,
)
    requires
        call_ensures(thread_entry, (&before,), rip),
        call_ensures(thread_new::<E>, (vals, made), ()),
    ensures
        rip == before.a1,
        made matches Ok(tid) ==> final(vals).a1 == tid && final(vals).a2 == 0,
        made is Err ==> final(vals).a1 == 0 && final(vals).a2 == 1,
{
}

/// A thread that blocks is in the state that it blocks in, and nothing else of it changes. A
/// thread that is to go on running does.
pub proof fn lemma_blocked_thread(thread: &mut Thread, state: ThreadState, blocked: bool)
    requires
        call_ensures(Thread::block, (thread, state), blocked),
    ensures
        blocked <==> !(state is Running),
        blocked ==> final(thread)@ == (ThreadView { state, ..old(thread)@ }),
        !blocked ==> final(thread)@ == old(thread)@,
{
}

/// A thread that sleeps for some time wakes that time from now. Of a time that cannot be told,
/// whole multiples of the longest that can be are dropped.
pub proof fn lemma_sleeps_for(thread: &mut Thread, now: u64, nanos: u128, blocked: bool)
    requires
        call_ensures(Thread::sleep, (thread, now, nanos), blocked),
        now + nanos % 0x1_0000_0000_0000_0000 <= u64::MAX,
    ensures
        blocked,
        final(thread)@.state matches ThreadState::Sleep(end) && end >= now && (end - now) as nat
            == nanos % 0x1_0000_0000_0000_0000,
        final(thread)@ == (ThreadView { state: final(thread)@.state, ..old(thread)@ }),
{
}

/// A thread that sleeps until a time wakes at that time.
pub proof fn lemma_sleeps_until(thread: &mut Thread, nsec: u64, blocked: bool)
    requires
        call_ensures(Thread::sleep_until, (thread, nsec), blocked),
    ensures
        blocked,
        final(thread)@.state matches ThreadState::Sleep(end) && end == nsec,
        final(thread)@ == (ThreadView { state: final(thread)@.state, ..old(thread)@ }),
{
}

/// The time that a thread has run grows by what is counted, and starts over behind the
/// longest time that can be told.
pub proof fn lemma_run_time_grows(thread: &mut Thread, nsec: u64, time: u64)
    requires
        call_ensures(Thread::inc_time, (thread, nsec), ()),
        call_ensures(Thread::run_time, (&*final(thread),), time),
    ensures
        old(thread)@.run_time + nsec <= u64::MAX ==> time - old(thread)@.run_time == nsec,
        old(thread)@.run_time + nsec > u64::MAX ==> time + u64::MAX + 1 == old(thread)@.run_time
            + nsec,
        final(thread)@ == (ThreadView { run_time: time, ..old(thread)@ }),
{
}

/// A queue is made for a thread that blocks on a futex of a process that is alive, and for no
/// other thread. A thread leaves its process under its own id, where the process is alive.
pub proof fn lemma_process_is_alive(
    thread: Thread,
    state: ThreadState,
    alive: bool,
    futex_addr: Option<usize>,
    tid: Option<usize>,
)
    requires
        call_ensures(Thread::prepare_block, (&thread, state, alive), futex_addr),
        call_ensures(Thread::leaves_process, (&thread, alive), tid),
    ensures
        futex_addr matches Some(addr) ==> alive && state == ThreadState::FutexBlock(addr),
        alive && state is FutexBlock ==> futex_addr is Some,
        tid is Some <==> alive,
        tid matches Some(t) ==> t == thread@.tid,
{
}

/// A thread has the state and the registers that are set, and nothing else of it changes.
pub proof fn lemma_set_thread(
    stated: &mut Thread,
    state: ThreadState,
    registered: &mut Thread,
    regs: Registers,
)
    requires
        call_ensures(Thread::set_state, (stated, state), ()),
        call_ensures(Thread::set_regs, (registered, regs), ()),
    ensures
        final(stated)@ == (ThreadView { state, ..old(stated)@ }),
        final(registered)@ == (ThreadView { regs, ..old(registered)@ }),
{
}

/// What is made of its parts has these parts: saved registers and a saved stack, the futexes
/// of shared memory, and a list without threads.
pub proof fn lemma_made_of_parts(
    regs: Registers,
    stack: Stack,
    saved: ConnSaveState,
    id: usize,
    futex: FutexMap,
    nodes: ThreadList,
)
    requires
        call_ensures(ConnSaveState::new, (regs, stack), saved),
        call_ensures(FutexMap::new_smem, (id,), futex),
        call_ensures(ThreadList::new, (), nodes),
    ensures
        saved.regs == regs,
        saved.stack == stack,
        futex.smid == id,
        nodes@.len() == 0,
{
}

/// Tells what a thread is made of.
pub proof fn lemma_what_threads_tell(
    thread: Thread,
    tid: usize,
    name: &str,
    state: ThreadState,
    regs: Registers,
    stack: Stack,
    saved: bool,
)
    requires
        call_ensures(Thread::tid, (&thread,), tid),
        call_ensures(Thread::name, (&thread,), name),
        call_ensures(Thread::state, (&thread,), state),
        call_ensures(Thread::regs, (&thread,), regs),
        call_ensures(Thread::stack, (&thread,), stack),
        call_ensures(Thread::has_saved_state, (&thread,), saved),
    ensures
        tid == thread@.tid,
        name@ == thread@.name,
        state == thread@.state,
        regs == thread@.regs,
        stack == thread@.stack,
        saved <==> thread@.conn_data.len() >= 1,
{
}

proof fn lemma_queue_is_filter(nodes: Seq<(ThreadState, u64)>, state: ThreadState)
    ensures
        list::queue(nodes, state) == nodes.filter(
            |node: (ThreadState, u64)| node.0 == state,
        ).map_values(|node: (ThreadState, u64)| node.1),
        list::without_queue(nodes, state) == nodes.filter(
            |node: (ThreadState, u64)| node.0 != state,
        ),
    decreases nodes.len(),
{
    reveal(Seq::filter);
    if nodes.len() > 0 {
        lemma_queue_is_filter(nodes.drop_last(), state);
    }
    assert(list::queue(nodes, state) =~= nodes.filter(
        |node: (ThreadState, u64)| node.0 == state,
    ).map_values(|node: (ThreadState, u64)| node.1));
}

/// The threads in the queue of a state are those that stand in the list in this state, in
/// the order of the list. Where they are taken out, the others stay in their order.
pub proof fn lemma_queue_of_state(
    nodes: &ThreadList,
    state: ThreadState,
    ptrs: Vec<u64>,
    taken_from: &mut ThreadList,
    taken: Vec<u64>,
)
    requires
        call_ensures(ThreadList::threads_in, (nodes, state), ptrs),
        call_ensures(ThreadList::take_queue, (taken_from, state), taken),
    ensures
        ptrs@ == nodes@.filter(|node: (ThreadState, u64)| node.0 == state).map_values(
            |node: (ThreadState, u64)| node.1,
        ),
        taken@ == old(taken_from)@.filter(
            |node: (ThreadState, u64)| node.0 == state,
        ).map_values(|node: (ThreadState, u64)| node.1),
        final(taken_from)@ == old(taken_from)@.filter(
            |node: (ThreadState, u64)| node.0 != state,
        ),
{
    lemma_queue_is_filter(nodes@, state);
    lemma_queue_is_filter(old(taken_from)@, state);
}

/// A thread that is put into a list comes last, and a thread that is taken out leaves the
/// first place at which it stands in its state.
pub proof fn lemma_list_changes(
    entered: &mut ThreadList,
    left: &mut ThreadList,
    state: ThreadState,
    ptr: u64,
    i: int,
)
    requires
        call_ensures(ThreadList::push, (entered, state, ptr), ()),
        call_ensures(ThreadList::remove_node, (left, state, ptr), ()),
        0 <= i < old(left)@.len(),
        old(left)@[i] == (state, ptr),
        forall|k: int| 0 <= k < i ==> #[trigger] old(left)@[k] != (state, ptr),
    ensures
        final(entered)@ == old(entered)@.push((state, ptr)),
        final(left)@ == old(left)@.remove(i),
{
    lemma_first_place(old(left)@, state, ptr, i);
}

proof fn lemma_first_place(
    nodes: Seq<(ThreadState, u64)>,
    state: ThreadState,
    ptr: u64,
    i: int,
)
    requires
        0 <= i < nodes.len(),
        nodes[i] == (state, ptr),
        forall|k: int| 0 <= k < i ==> #[trigger] nodes[k] != (state, ptr),
    ensures
        list::position(nodes, state, ptr) == i,
{
    list::lemma_position(nodes, state, ptr);
    let at = list::position(nodes, state, ptr);
    if at < i {
        assert(nodes[at] != (state, ptr));
    }
}

/// A thread that moves to a state in which it runs, is ready, is to be destroyed, sleeps or
/// listens ends at the end of the list for all processes; one that moves to a state in which
/// it waits for a thread or on a futex ends at the end of the list of its process. It leaves
/// the first place at which it stood, in the list that its old state tells in the same way,
/// and nothing else changes in the lists.
pub proof fn lemma_moves_between_lists(
    thread: &mut Thread,
    ptr: u64,
    state: ThreadState,
    alive: bool,
    g: &mut ThreadList,
    p: &mut ThreadList,
    result: Result<u64, u64>,
    i: int,
)
    requires
        call_ensures(Thread::move_to, (thread, ptr, state, alive, Some(g), Some(p)), result),
        match old(thread)@.state {
            ThreadState::Running | ThreadState::Ready | ThreadState::Destroy
            | ThreadState::Sleep(_) | ThreadState::Listening(_) => {
                &&& 0 <= i < old(g)@.len()
                &&& old(g)@[i] == (old(thread)@.state, ptr)
                &&& forall|k: int|
                    0 <= k < i ==> #[trigger] old(g)@[k] != (old(thread)@.state, ptr)
            },
            ThreadState::Join(_) | ThreadState::FutexBlock(_) => {
                &&& alive
                &&& 0 <= i < old(p)@.len()
                &&& old(p)@[i] == (old(thread)@.state, ptr)
                &&& forall|k: int|
                    0 <= k < i ==> #[trigger] old(p)@[k] != (old(thread)@.state, ptr)
            },
        },
    ensures
        final(thread)@ == (ThreadView { state, ..old(thread)@ }),
        ({
            let g1 = match old(thread)@.state {
                ThreadState::Join(_) | ThreadState::FutexBlock(_) => old(g)@,
                ThreadState::Running | ThreadState::Ready | ThreadState::Destroy
                | ThreadState::Sleep(_) | ThreadState::Listening(_) => old(g)@.remove(i),
            };
            let p1 = match old(thread)@.state {
                ThreadState::Join(_) | ThreadState::FutexBlock(_) => old(p)@.remove(i),
                ThreadState::Running | ThreadState::Ready | ThreadState::Destroy
                | ThreadState::Sleep(_) | ThreadState::Listening(_) => old(p)@,
            };
            match state {
                ThreadState::Running | ThreadState::Ready | ThreadState::Destroy
                | ThreadState::Sleep(_) | ThreadState::Listening(_) => {
                    &&& result == Ok::<u64, u64>(ptr)
                    &&& final(g)@ == g1.push((state, ptr))
                    &&& final(p)@ == p1
                },
                ThreadState::Join(_) | ThreadState::FutexBlock(_) => if alive {
                    &&& result == Ok::<u64, u64>(ptr)
                    &&& final(g)@ == g1
                    &&& final(p)@ == p1.push((state, ptr))
                } else {
                    &&& result == Err::<u64, u64>(ptr)
                    &&& final(g)@ == g1
                    &&& final(p)@ == p1
                },
            }
        }),
{
    match old(thread)@.state {
        ThreadState::Join(_) | ThreadState::FutexBlock(_) => {
            lemma_first_place(old(p)@, old(thread)@.state, ptr, i);
        },
        _ => {
            lemma_first_place(old(g)@, old(thread)@.state, ptr, i);
        },
    }
}

/// A thread does not move where the list that its state tells is not at hand, or its process
/// is not alive. Where only the list of its new state is not, it is in that state and in no
/// list.
pub proof fn lemma_moves_without_process_list(
    thread: &mut Thread,
    ptr: u64,
    state: ThreadState,
    alive: bool,
    g: &mut ThreadList,
    result: Result<u64, u64>,
    i: int,
)
    requires
        call_ensures(
            Thread::move_to,
            (thread, ptr, state, alive, Some(g), None::<&mut ThreadList>),
            result,
        ),
        !(old(thread)@.state is Join || old(thread)@.state is FutexBlock) ==> {
            &&& 0 <= i < old(g)@.len()
            &&& old(g)@[i] == (old(thread)@.state, ptr)
            &&& forall|k: int| 0 <= k < i ==> #[trigger] old(g)@[k] != (old(thread)@.state, ptr)
        },
    ensures
        match old(thread)@.state {
            ThreadState::Join(_) | ThreadState::FutexBlock(_) => {
                &&& result == Err::<u64, u64>(ptr)
                &&& final(thread)@ == old(thread)@
                &&& final(g)@ == old(g)@
            },
            ThreadState::Running | ThreadState::Ready | ThreadState::Destroy
            | ThreadState::Sleep(_) | ThreadState::Listening(_) => {
                &&& final(thread)@ == (ThreadView { state, ..old(thread)@ })
                &&& match state {
                    ThreadState::Join(_) | ThreadState::FutexBlock(_) => {
                        &&& result == Err::<u64, u64>(ptr)
                        &&& final(g)@ == old(g)@.remove(i)
                    },
                    ThreadState::Running | ThreadState::Ready | ThreadState::Destroy
                    | ThreadState::Sleep(_) | ThreadState::Listening(_) => {
                        &&& result == Ok::<u64, u64>(ptr)
                        &&& final(g)@ == old(g)@.remove(i).push((state, ptr))
                    },
                }
            },
        },
{
    if !(old(thread)@.state is Join || old(thread)@.state is FutexBlock) {
        lemma_first_place(old(g)@, old(thread)@.state, ptr, i);
    }
}

/// Where the list for all processes is not at hand, a thread moves only between the queues of
/// its process.
pub proof fn lemma_moves_without_global_list(
    thread: &mut Thread,
    ptr: u64,
    state: ThreadState,
    alive: bool,
    p: &mut ThreadList,
    result: Result<u64, u64>,
    i: int,
)
    requires
        call_ensures(
            Thread::move_to,
            (thread, ptr, state, alive, None::<&mut ThreadList>, Some(p)),
            result,
        ),
        alive && (old(thread)@.state is Join || old(thread)@.state is FutexBlock) ==> {
            &&& 0 <= i < old(p)@.len()
            &&& old(p)@[i] == (old(thread)@.state, ptr)
            &&& forall|k: int| 0 <= k < i ==> #[trigger] old(p)@[k] != (old(thread)@.state, ptr)
        },
    ensures
        match old(thread)@.state {
            ThreadState::Running | ThreadState::Ready | ThreadState::Destroy
            | ThreadState::Sleep(_) | ThreadState::Listening(_) => {
                &&& result == Err::<u64, u64>(ptr)
                &&& final(thread)@ == old(thread)@
                &&& final(p)@ == old(p)@
            },
            ThreadState::Join(_) | ThreadState::FutexBlock(_) => if alive {
                &&& final(thread)@ == (ThreadView { state, ..old(thread)@ })
                &&& match state {
                    ThreadState::Join(_) | ThreadState::FutexBlock(_) => {
                        &&& result == Ok::<u64, u64>(ptr)
                        &&& final(p)@ == old(p)@.remove(i).push((state, ptr))
                    },
                    ThreadState::Running | ThreadState::Ready | ThreadState::Destroy
                    | ThreadState::Sleep(_) | ThreadState::Listening(_) => {
                        &&& result == Err::<u64, u64>(ptr)
                        &&& final(p)@ == old(p)@.remove(i)
                    },
                }
            } else {
                &&& result == Err::<u64, u64>(ptr)
                &&& final(thread)@ == old(thread)@
                &&& final(p)@ == old(p)@
            },
        },
{
    if alive && (old(thread)@.state is Join || old(thread)@.state is FutexBlock) {
        lemma_first_place(old(p)@, old(thread)@.state, ptr, i);
    }
}

/// A thread enters the list that its state tells, at the end, and no other. Where the list is
/// one of its process, the process has to be alive.
pub proof fn lemma_enters_list(
    thread: Thread,
    ptr: u64,
    alive: bool,
    g: &mut ThreadList,
    p: &mut ThreadList,
    result: Result<u64, u64>,
)
    requires
        call_ensures(Thread::insert_into, (&thread, ptr, alive, Some(g), Some(p)), result),
    ensures
        match thread@.state {
            ThreadState::Running | ThreadState::Ready | ThreadState::Destroy
            | ThreadState::Sleep(_) | ThreadState::Listening(_) => {
                &&& result == Ok::<u64, u64>(ptr)
                &&& final(g)@ == old(g)@.push((thread@.state, ptr))
                &&& final(p)@ == old(p)@
            },
            ThreadState::Join(_) | ThreadState::FutexBlock(_) => {
                &&& final(g)@ == old(g)@
                &&& if alive {
                    result == Ok::<u64, u64>(ptr) && final(p)@ == old(p)@.push(
                        (thread@.state, ptr),
                    )
                } else {
                    result == Err::<u64, u64>(ptr) && final(p)@ == old(p)@
                }
            },
        },
{
}

/// A thread leaves the list that its state tells, at the first place at which it stands
/// there, and no other list.
pub proof fn lemma_leaves_list(
    thread: Thread,
    ptr: u64,
    alive: bool,
    g: &mut ThreadList,
    p: &mut ThreadList,
    result: Result<u64, u64>,
    i: int,
)
    requires
        call_ensures(Thread::remove_from_current, (&thread, ptr, alive, Some(g), Some(p)), result),
        match thread@.state {
            ThreadState::Running | ThreadState::Ready | ThreadState::Destroy
            | ThreadState::Sleep(_) | ThreadState::Listening(_) => {
                &&& 0 <= i < old(g)@.len()
                &&& old(g)@[i] == (thread@.state, ptr)
                &&& forall|k: int| 0 <= k < i ==> #[trigger] old(g)@[k] != (thread@.state, ptr)
            },
            ThreadState::Join(_) | ThreadState::FutexBlock(_) => alive ==> {
                &&& 0 <= i < old(p)@.len()
                &&& old(p)@[i] == (thread@.state, ptr)
                &&& forall|k: int| 0 <= k < i ==> #[trigger] old(p)@[k] != (thread@.state, ptr)
            },
        },
    ensures
        match thread@.state {
            ThreadState::Running | ThreadState::Ready | ThreadState::Destroy
            | ThreadState::Sleep(_) | ThreadState::Listening(_) => {
                &&& result == Ok::<u64, u64>(ptr)
                &&& final(g)@ == old(g)@.remove(i)
                &&& final(p)@ == old(p)@
            },
            ThreadState::Join(_) | ThreadState::FutexBlock(_) => {
                &&& final(g)@ == old(g)@
                &&& if alive {
                    result == Ok::<u64, u64>(ptr) && final(p)@ == old(p)@.remove(i)
                } else {
                    result == Err::<u64, u64>(ptr) && final(p)@ == old(p)@
                }
            },
        },
{
    match thread@.state {
        ThreadState::Join(_) | ThreadState::FutexBlock(_) => {
            if alive {
                lemma_first_place(old(p)@, thread@.state, ptr, i);
            }
        },
        _ => {
            lemma_first_place(old(g)@, thread@.state, ptr, i);
        },
    }
}

/// The threads that waited for a thread to end, and they alone, leave the list of the process
/// and stand at the end of the list for all processes, ready, in their order. Nothing happens
/// where the process is not alive.
pub proof fn lemma_waiting_threads_are_readied(
    thread: Thread,
    alive: bool,
    g: &mut ThreadList,
    p: &mut ThreadList,
    ptrs: Vec<u64>,
)
    requires
        call_ensures(Thread::ready_waiting, (&thread, alive, Some(g), Some(p)), ptrs),
    ensures
        alive ==> {
            &&& ptrs@ == old(p)@.filter(
                |node: (ThreadState, u64)| node.0 == ThreadState::Join(thread@.tid),
            ).map_values(|node: (ThreadState, u64)| node.1)
            &&& final(p)@ == old(p)@.filter(
                |node: (ThreadState, u64)| node.0 != ThreadState::Join(thread@.tid),
            )
        },
        !alive ==> ptrs@.len() == 0 && final(p)@ == old(p)@,
        final(g)@ == old(g)@ + ptrs@.map_values(|ptr: u64| (ThreadState::Ready, ptr)),
{
    lemma_queue_is_filter(old(p)@, ThreadState::Join(thread@.tid));
    assert(list::in_state(ptrs@, ThreadState::Ready) =~= ptrs@.map_values(
        |ptr: u64| (ThreadState::Ready, ptr),
    ));
}

/// Where a stack lies. The lowest page of a user stack is its guard page, and does not count.
pub proof fn lemma_where_stacks_lie(stack: Stack, bottom: u64, top: u64, size: u64)
    requires
        call_ensures(Stack::bottom, (&stack,), bottom),
        call_ensures(Stack::top, (&stack,), top),
        call_ensures(Stack::size, (&stack,), size),
        stack.wf(),
    ensures
        top - bottom == size,
        stack matches Stack::User(range) ==> bottom == range.addr + 4096 && top == range.addr
            + range.size,
        stack matches Stack::Kernel(mem) ==> bottom == mem.virt && top == mem.virt + mem.len,
        stack matches Stack::KernelNoAlloc(range) ==> bottom == range.addr && top == range.addr
            + range.size,
{
}

/// A thread starts one word below the top of its stack, and an applied privilege or message
/// stands in its own registers. No other register changes.
pub proof fn lemma_applied_registers(
    on_stack: &mut Registers,
    stack: Stack,
    top: u64,
    with_priv: &mut Registers,
    uid: PrivLevel,
    with_args: &mut Registers,
    args: MsgArgs,
)
    requires
        call_ensures(Registers::apply_stack, (on_stack, &stack), ()),
        call_ensures(Stack::top, (&stack,), top),
        top >= 8,
        call_ensures(Registers::apply_priv, (with_priv, uid), ()),
        call_ensures(Registers::apply_msg_args, (with_args, &args), ()),
    ensures
        final(on_stack).rsp + 8 == top,
        *final(on_stack) == (Registers { rsp: final(on_stack).rsp, ..*old(on_stack) }),
        *final(with_priv) == (Registers { uid, ..*old(with_priv) }),
        *final(with_args) == (Registers { args, ..*old(with_args) }),
{
}

/// The memory that is asked for holds the stack, in whole pages and in no page more than are
/// needed.
pub proof fn lemma_stack_request(size: u64, request: u64)
    requires
        call_ensures(Stack::user_request, (size,), request),
        size + 4095 <= u64::MAX,
    ensures
        request % 4096 == 0,
        size <= request < size + 4096,
{
}

/// A kernel stack is made of the memory that there is for it.
pub proof fn lemma_kernel_stacks(
    mem: Option<Allocation>,
    made: Result<Stack, StackError>,
    range: VirtRange,
    stack: Stack,
)
    requires
        call_ensures(Stack::kernel_new, (mem,), made),
        call_ensures(Stack::no_alloc_new, (range,), stack),
    ensures
        mem matches Some(m) ==> made == Ok::<Stack, StackError>(Stack::Kernel(m)),
        mem is None ==> made == Err::<Stack, StackError>(StackError::OutOfMem),
        stack == Stack::KernelNoAlloc(range),
{
}

/// A thread that is made without sizes gets a stack of 32 pages, and one of 16 pages for
/// system calls. Everything else is as it was given.
pub proof fn lemma_default_stack_sizes(
    tid: usize,
    name: String,
    regs: Registers,
    uid: PrivLevel,
    builder: ThreadBuilder,
)
    requires
        call_ensures(Thread::new, (tid, name, regs, uid), builder),
    ensures
        builder.stack_size == 32 * 4096,
        builder.kstack_size == 16 * 4096,
        builder.stack is None,
        builder.tid == tid,
        builder.name == name,
        builder.regs == regs,
        builder.uid == uid,
{
}

/// A thread gets the stack sizes that it is made with.
pub proof fn lemma_given_stack_sizes(
    tid: usize,
    name: String,
    regs: Registers,
    uid: PrivLevel,
    stack_size: u64,
    kstack_size: u64,
    builder: ThreadBuilder,
)
    requires
        call_ensures(
            Thread::new_stack_size,
            (tid, name, regs, uid, stack_size, kstack_size),
            builder,
        ),
    ensures
        builder.stack_size == stack_size,
        builder.kstack_size == kstack_size,
        builder.stack is None,
        builder.tid == tid,
        builder.name == name,
        builder.regs == regs,
        builder.uid == uid,
{
}

/// A thread of the kernel asks for its stack. Any other asks for whole pages for its stack,
/// and then for its stack for system calls.
pub proof fn lemma_builder_request(builder: ThreadBuilder, size: u64)
    requires
        builder.wf(),
        call_ensures(ThreadBuilder::request, (&builder,), size),
    ensures
        builder.stack is Some ==> size == builder.kstack_size,
        builder.stack is None && builder.uid is Kernel ==> size == builder.stack_size,
        builder.stack is None && !(builder.uid is Kernel) ==> size % 4096 == 0
            && builder.stack_size <= size < builder.stack_size + 4096,
{
}

/// A thread that is made is ready, has not run, handles no message, and has the id, the name
/// and the privilege that it was to have. It starts one word below the top of its stack. A
/// thread that is not one of the kernel has another stack in the memory that came last, one
/// word below the top of which its system calls start. Its other registers are as given.
pub proof fn lemma_made_thread<T: FrameAllocator>(
    builder: ThreadBuilder,
    mem: Option<Allocation>,
    mapper: &mut VirtMapper<T>,
    flush: &mut Vec<u64>,
    step: Result<BuildStep, StackError>,
    thread: Thread,
    top: u64,
)
    requires
        builder.wf(),
        mem matches Some(m) ==> builder.accepts(m, *old(mapper)),
        call_ensures(ThreadBuilder::step::<T>, (builder, mem, mapper, flush), step),
        step == Ok::<BuildStep, StackError>(BuildStep::Done(thread)),
        call_ensures(Stack::top, (&thread@.stack,), top),
    ensures
        mem is Some,
        *final(mapper) == *old(mapper),
        final(flush)@ == old(flush)@,
        thread@.tid == builder.tid,
        thread@.name == builder.name@,
        thread@.state is Ready,
        thread@.run_time == 0,
        thread@.conn_data.len() == 0,
        thread@.rcv_regs == Err::<Registers, SysErr>(SysErr::Unknown),
        thread@.regs.rip == builder.regs.rip,
        thread@.regs.args == builder.regs.args,
        thread@.regs.uid == builder.uid,
        thread@.regs.rsp + 8 == top,
        match builder.stack {
            Some(stack) => {
                &&& !(builder.uid is Kernel)
                &&& thread@.stack == stack
                &&& thread@.kstack == Some(Stack::Kernel(mem->0))
                &&& thread@.regs.call_rsp + 8 == (mem->0).virt + (mem->0).len
            },
            None => {
                &&& builder.uid is Kernel
                &&& thread@.stack == Stack::Kernel(mem->0)
                &&& thread@.kstack is None
                &&& thread@.regs.call_rsp == builder.regs.call_rsp
            },
        },
{
}

/// A thread that is not one of the kernel and has no stack yet goes on with a user stack,
/// and asks for memory once more. A thread for which there is no memory is not made, and one
/// for whose stack there is room is.
pub proof fn lemma_thread_being_made<T: FrameAllocator>(
    builder: ThreadBuilder,
    mem: Option<Allocation>,
    mapper: &mut VirtMapper<T>,
    flush: &mut Vec<u64>,
    step: Result<BuildStep, StackError>,
    other: u64,
)
    requires
        builder.wf(),
        mem matches Some(m) ==> builder.accepts(m, *old(mapper)),
        call_ensures(ThreadBuilder::step::<T>, (builder, mem, mapper, flush), step),
    ensures
        mem is None ==> step == Err::<BuildStep, StackError>(StackError::OutOfMem),
        step is Err ==> *final(mapper) == *old(mapper) && final(flush)@ == old(flush)@,
        builder.stack is Some || builder.uid is Kernel ==> (mem is Some <==> step is Ok),
        step matches Err(e) ==> mem is Some ==> e == StackError::NotMapped(MapError::NoSpace),
        ({
            let zones = old(mapper).zones();
            mem matches Some(m) && other >= 4096 && other + 4096 + m.len <= old(mapper).max() && (
            forall|i: int|
                #![trigger zones[i]]
                0 <= i < zones.len() ==> zones[i].range.addr + zones[i].range.size <= other || other
                    + 4096 + m.len <= zones[i].range.addr) ==> step is Ok
        }),
        step matches Ok(BuildStep::Ask(next)) ==> {
            &&& mem is Some
            &&& builder.stack is None
            &&& !(builder.uid is Kernel)
            &&& next.stack matches Some(Stack::User(range)) && range.size == (mem->0).len + 4096
            &&& next == (ThreadBuilder { stack: next.stack, ..builder })
        },
{
    let zones = old(mapper).zones();
    let max = old(mapper).max();
    if mem is Some && other >= 4096 && other + 4096 + (mem->0).len <= max && (forall|i: int|
        #![trigger zones[i]]
        0 <= i < zones.len() ==> zones[i].range.addr + zones[i].range.size <= other || other + 4096
            + (mem->0).len <= zones[i].range.addr) {
        let low = VirtRange { addr: other, size: (4096 + (mem->0).len) as u64 };
        assert(mapper::fits(zones, max, low));
    }
}

/// A thread of the kernel on a stack that is there already runs with the privilege of the
/// kernel, one word below the top of that stack.
pub proof fn lemma_thread_from_stack(
    tid: usize,
    name: String,
    regs: Registers,
    range: VirtRange,
    made: Result<Thread, StackError>,
)
    requires
        range.addr + range.size <= u64::MAX,
        range.addr + range.size >= 8,
        call_ensures(Thread::from_stack, (tid, name, regs, range), made),
    ensures
        made is Ok,
        ({
            let thread = (made->Ok_0)@;
            &&& thread.tid == tid
            &&& thread.name == name@
            &&& thread.state is Ready
            &&& thread.run_time == 0
            &&& thread.conn_data.len() == 0
            &&& thread.rcv_regs == Err::<Registers, SysErr>(SysErr::Unknown)
            &&& thread.stack == Stack::KernelNoAlloc(range)
            &&& thread.kstack is None
            &&& thread.regs.uid is Kernel
            &&& thread.regs.rsp + 8 == range.addr + range.size
            &&& thread.regs.rip == regs.rip
            &&& thread.regs.args == regs.args
            &&& thread.regs.call_rsp == regs.call_rsp
        }),
{
}

/// A thread that handles a message goes on with what the message hands over, one word below
/// the top of a new stack. What it did before is kept on top of what was kept already.
pub proof fn lemma_handed_a_message<T: FrameAllocator>(
    thread: &mut Thread,
    args: MsgArgs,
    mem: Option<Allocation>,
    mapper: &mut VirtMapper<T>,
    flush: &mut Vec<u64>,
    result: Result<(), SysErr>,
    rcv: &Result<Registers, SysErr>,
    other: u64,
)
    requires
        call_ensures(Thread::push_conn_state::<T>, (thread, &args, mem, mapper, flush), result),
        call_ensures(Thread::rcv_regs, (&*final(thread),), rcv),
        mem matches Some(m) ==> m.wf(),
    ensures
        mem is None ==> result is Err,
        ({
            let zones = old(mapper).zones();
            mem matches Some(m) && other >= 4096 && other + 4096 + m.len <= old(mapper).max() && (
            forall|i: int|
                #![trigger zones[i]]
                0 <= i < zones.len() ==> zones[i].range.addr + zones[i].range.size <= other || other
                    + 4096 + m.len <= zones[i].range.addr) ==> result is Ok
        }),
        result matches Err(e) ==> {
            &&& e is OutOfMem
            &&& final(thread)@ == old(thread)@
            &&& *final(mapper) == *old(mapper)
            &&& final(flush)@ == old(flush)@
        },
        result is Ok ==> {
            let before = old(thread)@;
            let after = final(thread)@;
            &&& rcv matches Ok(regs) && {
                &&& regs.args == args
                &&& regs.rip == before.regs.rip
                &&& regs.call_rsp == before.regs.call_rsp
                &&& regs.uid == before.regs.uid
                &&& after.stack matches Stack::User(range) && range.size == (mem->0).len + 4096
                    && regs.rsp + 8 == range.addr + range.size
            }
            &&& after.conn_data.len() == before.conn_data.len() + 1
            &&& after.conn_data.last().regs == before.regs
            &&& after.conn_data.last().stack == before.stack
            &&& after.conn_data.drop_last() == before.conn_data
            &&& after == (ThreadView {
                stack: after.stack,
                conn_data: after.conn_data,
                rcv_regs: after.rcv_regs,
                ..before
            })
        },
{
    if result is Ok {
        assert(final(thread)@.conn_data.drop_last() =~= old(thread)@.conn_data);
    }
    let zones = old(mapper).zones();
    let max = old(mapper).max();
    if mem is Some && other >= 4096 && other + 4096 + (mem->0).len <= max && (forall|i: int|
        #![trigger zones[i]]
        0 <= i < zones.len() ==> zones[i].range.addr + zones[i].range.size <= other || other + 4096
            + (mem->0).len <= zones[i].range.addr) {
        let low = VirtRange { addr: other, size: (4096 + (mem->0).len) as u64 };
        assert(mapper::fits(zones, max, low));
    }
}

/// A thread that has answered a message goes on with the registers and the stack that were
/// kept last, and no longer keeps them. One that keeps nothing has no message to answer.
pub proof fn lemma_answered_a_message<T: FrameAllocator>(
    thread: &mut Thread,
    mapper: &mut VirtMapper<T>,
    flush: &mut Vec<u64>,
    result: Result<Vec<Allocation>, SysErr>,
    rcv: &Result<Registers, SysErr>,
)
    requires
        call_ensures(Thread::pop_conn_state::<T>, (thread, mapper, flush), result),
        call_ensures(Thread::rcv_regs, (&*final(thread),), rcv),
    ensures
        result is Ok <==> old(thread)@.conn_data.len() > 0,
        result matches Err(e) ==> {
            &&& e is InvlOp
            &&& final(thread)@ == old(thread)@
            &&& *final(mapper) == *old(mapper)
            &&& final(flush)@ == old(flush)@
        },
        result is Ok ==> {
            let before = old(thread)@;
            let after = final(thread)@;
            &&& *rcv == Ok::<Registers, SysErr>(before.conn_data.last().regs)
            &&& after.stack == before.conn_data.last().stack
            &&& after.conn_data == before.conn_data.drop_last()
            &&& after == (ThreadView {
                stack: after.stack,
                conn_data: after.conn_data,
                rcv_regs: after.rcv_regs,
                ..before
            })
        },
{
}

proof fn lemma_stack_bits(bits: u64, size: u64)
    by (bit_vector)
    requires
        size == 0 || size == 1u64 << 7,
    ensures
        (bits | size) & 1 == bits & 1,
        (bits | size) & 2 == bits & 2,
        (bits | size) & 4 == bits & 4,
        (bits | size) & 0x8000_0000_0000_0000 == bits & 0x8000_0000_0000_0000,
        (1u64 | 1u64 << 1 | 1u64 << 3) & 1 != 0,
        (1u64 | 1u64 << 1 | 1u64 << 3) & 2 != 0,
        (1u64 | 1u64 << 1 | 1u64 << 3) & 8 != 0,
        (1u64 | 1u64 << 1 | 1u64 << 3) & 4 == 0,
{
}

/// A new user stack takes a page more than its memory: its lowest page is the guard page, and
/// leads nowhere. Every address above leads to the byte of the memory that lies as far from
/// the start, may be read and written in user mode, and may not be executed. Only the kernel
/// unmaps the stack.
pub proof fn lemma_new_user_stack<T: FrameAllocator>(
    size: u64,
    mem: Allocation,
    mapper: &mut VirtMapper<T>,
    flush: &mut Vec<u64>,
    range: VirtRange,
    a: u64,
)
    requires
        old(mapper).wf(),
        mem.wf(),
        stack::room_for(*old(mapper), mem),
        mem.phys + mem.len <= 0x10_0000_0000_0000,
        call_ensures(
            Stack::user_new::<T>,
            (size, Some(mem), mapper, flush),
            Ok::<Stack, StackError>(Stack::User(range)),
        ),
    ensures
        range.size == mem.len + 4096,
        range.addr >= 4096,
        range.addr + range.size <= old(mapper).max(),
        exists|i: int|
            0 <= i < final(mapper).zones().len() && (#[trigger] final(mapper).zones()[i]).range
                == range && final(mapper).zones()[i].alloc_type is Protected,
        range.addr + 4096 <= a < range.addr + range.size ==> {
            &&& translate::translate(final(mapper).pages(), a) == Some(
                mem.phys + (a - range.addr - 4096),
            )
            &&& translate::access(final(mapper).pages(), a) matches Some(bits) && {
                &&& bits & 1 != 0
                &&& bits & 2 != 0
                &&& bits & 4 != 0
                &&& bits & 0x8000_0000_0000_0000 != 0
            }
        },
        range.addr <= a < range.addr + 4096 && a < 0x8000_0000_0000 ==> translate::translate(
            final(mapper).pages(),
            a,
        ) is None,
{
    let made = Stack::User(range);
    let p = mapper::slot(old(mapper).zones(), range);
    mapper::lemma_slot(old(mapper).zones(), old(mapper).max(), range);
    assert(final(mapper).zones()[p].range == range);
    assert(final(mapper).zones()[p].alloc_type == AllocType::Protected);
    if range.addr + 4096 <= a < range.addr + range.size {
        stack::lemma_stack_is_mapped(
            *old(mapper),
            *final(mapper),
            mem,
            made,
            old(flush)@,
            final(flush)@,
            a,
        );
        flags::lemma_mapping_bit_by_bit(PageMappingFlags { bits: stack::STACK_FLAGS });
        lemma_stack_bits(
            PageTableFlags::mapping_bits(
                PageMappingFlags { bits: stack::STACK_FLAGS },
            ),
            mapper::size_flag((translate::page_of(final(mapper).pages(), a)->0).1),
        );
    }
    if range.addr <= a < range.addr + 4096 && a < 0x8000_0000_0000 {
        stack::lemma_guard_page_leads_nowhere(
            *old(mapper),
            *final(mapper),
            mem,
            made,
            old(flush)@,
            final(flush)@,
            a,
        );
    }
}

/// A user stack is made where there is memory and room for it, and is a user stack. Without
/// memory there is none, and where there is no room there is none either. Then nothing
/// changes.
pub proof fn lemma_user_stack_or_none<T: FrameAllocator>(
    size: u64,
    mem: Option<Allocation>,
    mapper: &mut VirtMapper<T>,
    flush: &mut Vec<u64>,
    made: Result<Stack, StackError>,
    other: u64,
)
    requires
        call_ensures(Stack::user_new::<T>, (size, mem, mapper, flush), made),
    ensures
        mem is None ==> made == Err::<Stack, StackError>(StackError::OutOfMem),
        made is Err ==> *final(mapper) == *old(mapper) && final(flush)@ == old(flush)@,
        made matches Err(e) ==> mem is Some ==> e == StackError::NotMapped(MapError::NoSpace),
        made matches Ok(made) ==> mem is Some && made is User,
        ({
            let zones = old(mapper).zones();
            mem matches Some(m) && other >= 4096 && other + 4096 + m.len <= old(mapper).max() && (
            forall|i: int|
                #![trigger zones[i]]
                0 <= i < zones.len() ==> zones[i].range.addr + zones[i].range.size <= other || other
                    + 4096 + m.len <= zones[i].range.addr) ==> (made matches Ok(Stack::User(range))
                && range.addr <= other)
        }),
{
    let zones = old(mapper).zones();
    let max = old(mapper).max();
    if mem is Some && other >= 4096 && other + 4096 + (mem->0).len <= max && (forall|i: int|
        #![trigger zones[i]]
        0 <= i < zones.len() ==> zones[i].range.addr + zones[i].range.size <= other || other + 4096
            + (mem->0).len <= zones[i].range.addr) {
        let low = VirtRange { addr: other, size: (4096 + (mem->0).len) as u64 };
        assert(mapper::fits(zones, max, low));
    }
}

/// In an address space of user addresses there is room for a user stack with any memory, as
/// long as its size is a number.
pub proof fn lemma_room_for_stacks<T: FrameAllocator>(
    mem: Allocation,
    mapper: VirtMapper<T>,
    room: bool,
)
    requires
        mapper.wf(),
        mem.wf(),
        mapper.max() <= 0x8000_0000_0000,
        call_ensures(Stack::has_room::<T>, (mem, &mapper), room),
    ensures
        room <==> mem.len + 4096 <= u64::MAX,
{
    if mem.len + 4096 <= u64::MAX {
        stack::lemma_user_stacks_have_room(mapper, mem);
    }
}

/// What a stack hands back where it is given up: a user stack the memory that was allocated
/// for the pieces of its range, each allocation as often as it stands there; a kernel stack
/// the allocation that it is made of; and memory that is not given back nothing.
pub proof fn lemma_memory_of_stack<T: FrameAllocator>(
    stack: Stack,
    mapper: &mut VirtMapper<T>,
    flush: &mut Vec<u64>,
    mem: Vec<Allocation>,
    i: int,
    m: Allocation,
)
    requires
        old(mapper).wf(),
        call_ensures(Stack::dealloc::<T>, (&stack, mapper, flush), mem),
        stack matches Stack::User(range) ==> 0 <= i < old(mapper).zones().len() && old(
            mapper,
        ).zones()[i].range == range,
    ensures
        stack is User ==> {
            &&& mem@.to_multiset().count(m) == Set::new(
                |j: int|
                    0 <= j < old(mapper).zones()[i].elements.len() && old(
                        mapper,
                    ).zones()[i].elements[j].phys_data == VirtLayoutElementType::AllocedMem(m),
            ).len()
            &&& mem@ == old(mapper).zones()[i].elements.filter(
                |piece: VirtLayoutElement| piece.phys_data is AllocedMem,
            ).map_values(|piece: VirtLayoutElement| piece.phys_data->AllocedMem_0)
            &&& final(mapper).zones() == old(mapper).zones().remove(i)
        },
        stack matches Stack::Kernel(allocation) ==> {
            &&& mem@ == seq![allocation]
            &&& *final(mapper) == *old(mapper)
            &&& final(flush)@ == old(flush)@
        },
        stack is KernelNoAlloc ==> {
            &&& mem@.len() == 0
            &&& *final(mapper) == *old(mapper)
            &&& final(flush)@ == old(flush)@
        },
{
    if stack is User {
        mapper::lemma_slot_of(old(mapper).zones(), old(mapper).max(), i);
        layout::lemma_owned_as_often_as_it_stands(old(mapper).zones()[i].elements, m);
        layout::lemma_owned_in_order(old(mapper).zones()[i].elements);
    }
}

/// A user stack is mapped where its range is one of the mapped ranges. Any other stack always
/// is.
pub proof fn lemma_mapped_stack<T: FrameAllocator>(
    stack: Stack,
    mapper: VirtMapper<T>,
    mapped: bool,
)
    requires
        call_ensures(Stack::is_mapped::<T>, (&stack, &mapper), mapped),
    ensures
        mapped <==> match stack {
            Stack::User(range) => exists|i: int|
                0 <= i < mapper.zones().len() && (#[trigger] mapper.zones()[i]).range == range,
            _ => true,
        },
{
}

/// A thread that is no longer needed hands back the memory of its stack and then that of its
/// stack for system calls, each allocation as often as it stands there.
pub proof fn lemma_memory_of_thread<T: FrameAllocator>(
    thread: Thread,
    mapper: &mut VirtMapper<T>,
    flush: &mut Vec<u64>,
    mem: Vec<Allocation>,
    i: int,
    m: Allocation,
)
    requires
        old(mapper).wf(),
        call_ensures(Thread::dealloc::<T>, (&thread, Some(mapper), flush), mem),
        thread@.stack matches Stack::User(range) ==> 0 <= i < old(mapper).zones().len() && old(
            mapper,
        ).zones()[i].range == range,
        thread@.kstack matches Some(kstack) ==> kstack is Kernel,
    ensures
        ({
            let of_stack: int = match thread@.stack {
                Stack::User(_) => Set::new(
                    |j: int|
                        0 <= j < old(mapper).zones()[i].elements.len() && old(
                            mapper,
                        ).zones()[i].elements[j].phys_data == VirtLayoutElementType::AllocedMem(m),
                ).len() as int,
                Stack::Kernel(allocation) => if allocation == m {
                    1
                } else {
                    0
                },
                Stack::KernelNoAlloc(_) => 0,
            };
            let of_kstack: int = if thread@.kstack == Some(Stack::Kernel(m)) {
                1
            } else {
                0
            };
            mem@.to_multiset().count(m) == of_stack + of_kstack
        }),
        thread@.kstack matches Some(kstack) ==> mem@.len() > 0 && mem@.last() == kstack->Kernel_0,
        thread@.stack is User ==> final(mapper).zones() == old(mapper).zones().remove(i),
        !(thread@.stack is User) ==> *final(mapper) == *old(mapper) && final(flush)@ == old(
            flush,
        )@,
{
    broadcast use vstd::seq_lib::group_to_multiset_ensures;

    let own = thread@.stack.memory(*old(mapper));
    let kernel = match thread@.kstack {
        Some(kstack) => seq![kstack->Kernel_0],
        None => Seq::empty(),
    };
    assert(mem@ == own + kernel);
    vstd::seq_lib::lemma_multiset_commutative(own, kernel);
    match thread@.stack {
        Stack::User(range) => {
            mapper::lemma_slot_of(old(mapper).zones(), old(mapper).max(), i);
            layout::lemma_owned_as_often_as_it_stands(old(mapper).zones()[i].elements, m);
        },
        Stack::Kernel(allocation) => {
            lemma_count_in_one(allocation, m);
        },
        Stack::KernelNoAlloc(_) => {
            assert(!own.contains(m));
        },
    }
    match thread@.kstack {
        Some(kstack) => {
            lemma_count_in_one(kstack->Kernel_0, m);
        },
        None => {
            assert(!kernel.contains(m));
        },
    }
}

/// Where the process of a thread is not alive, giving the thread up does nothing.
pub proof fn lemma_thread_of_dead_process<T: FrameAllocator>(
    thread: Thread,
    flush: &mut Vec<u64>,
    mem: Vec<Allocation>,
)
    requires
        call_ensures(
            Thread::dealloc::<T>,
            (&thread, None::<&mut VirtMapper<T>>, flush),
            mem,
        ),
    ensures
        mem@.len() == 0,
        final(flush)@ == old(flush)@,
{
}

proof fn lemma_count_in_one(allocation: Allocation, m: Allocation)
    ensures
        seq![allocation].to_multiset().count(m) == if allocation == m {
            1nat
        } else {
            0
        },
{
    broadcast use vstd::seq_lib::group_to_multiset_ensures;

    let none = Seq::<Allocation>::empty();
    assert(seq![allocation] =~= none.push(allocation));
    assert(!none.contains(m));
    assert(none.to_multiset().count(m) == 0);
}

} // verus!
