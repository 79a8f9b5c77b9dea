use kernel_mem::mem::addr::{Allocation, VirtRange, PAGE_SIZE};
use kernel_mem::mem::flags::PageTableFlags;
use kernel_mem::mem::mapper::{MapError, VirtMapper};
use kernel_mem::mem::page_table::{FrameAllocator, PageMemory, PageTablePointer};
use kernel_mem::sched::list::ThreadList;
use kernel_mem::sched::regs::{MsgArgs, PrivLevel, Registers, SysErr};
use kernel_mem::sched::stack::{Stack, StackError};
use kernel_mem::sched::sys::{thread_block, thread_entry, thread_new, SyscallVals};
use kernel_mem::sched::thread::{BuildStep, ConnPid, ConnSaveState, Thread, ThreadState};

const OFFSET: u64 = 0xffff_8000_0000_0000;
const MAX: u64 = 0x8000_0000_0000;

struct Frames {
    next: u64,
}

impl FrameAllocator for Frames {
    fn alloc_frame(&mut self) -> Allocation {
        let phys = self.next;
        self.next += 0x1000;
        Allocation { virt: OFFSET + phys, phys, len: 0x1000 }
    }

    fn dealloc_frame(&mut self, _frame: Allocation) {}
}

fn mapper(max: u64) -> VirtMapper<Frames> {
    VirtMapper::new(Frames { next: 0x2000 }, PageMemory::new(), PageTablePointer(0), max)
}

fn mem(phys: u64, len: u64) -> Allocation {
    Allocation { virt: OFFSET + phys, phys, len }
}

fn no_args() -> MsgArgs {
    MsgArgs { a1: 0, a2: 0, a3: 0, a4: 0 }
}

fn regs() -> Registers {
    Registers { rip: 0x40_0000, rsp: 0, call_rsp: 0, uid: PrivLevel::User, args: no_args() }
}

fn idle() -> Thread {
    Thread::from_stack(3, String::from("idle"), regs(), VirtRange::new(0x7000, 0x2000)).unwrap()
}

#[test]
fn default_stack_sizes() {
    assert_eq!(Stack::DEFAULT_SIZE, 32 * 4096);
    assert_eq!(Stack::DEFAULT_KERNEL_SIZE, 16 * 4096);
    assert_eq!(Stack::user_request(0x1801), 0x2000);
}

#[test]
fn user_stacks_have_a_guard_page() {
    let mut mapper = mapper(MAX);
    let mut flush = Vec::new();
    let memory = mem(0x10_0000, 0x2000);
    assert!(Stack::has_room(memory, &mapper));
    let stack = Stack::user_new(0x2000, Some(memory), &mut mapper, &mut flush).unwrap();
    assert_eq!(stack, Stack::User(VirtRange::new(0x1000, 0x3000)));
    assert_eq!(stack.bottom(), 0x2000);
    assert_eq!(stack.size(), 0x2000);
    assert_eq!(stack.top(), 0x4000);
    // Only the memory is mapped.
    assert_eq!(flush, vec![0x2000, 0x3000]);
    let table = mapper.memory().get(0x5000).unwrap();
    assert!(!table.present(1));
    assert_eq!(
        table.entries[2].0,
        0x10_0000
            | PageTableFlags::PRESENT
            | PageTableFlags::WRITABLE
            | PageTableFlags::USER
            | PageTableFlags::NO_EXEC
    );
    assert!(stack.is_mapped(&mapper));
    assert_eq!(stack.dealloc(&mut mapper, &mut flush), vec![memory]);
    assert!(!stack.is_mapped(&mapper));
    // The pages of the stack are gone, and the range can be used again.
    assert!(mapper.memory().get(0x5000).is_none());
    assert_eq!(flush, vec![0x2000, 0x3000, 0x2000, 0x3000]);
    assert!(Stack::has_room(memory, &mapper));
    assert_eq!(Stack::user_new(0x2000, Some(memory), &mut mapper, &mut flush), Ok(stack));
}

#[test]
fn stacks_that_cannot_be_had() {
    let mut small = mapper(0x3000);
    let mut flush = Vec::new();
    assert_eq!(
        Stack::user_new(0x2000, None, &mut small, &mut flush),
        Err(StackError::OutOfMem)
    );
    assert_eq!(
        Stack::user_new(0x2000, Some(mem(0x10_0000, 0x2000)), &mut small, &mut flush),
        Err(StackError::NotMapped(MapError::NoSpace))
    );
    assert_eq!(Stack::kernel_new(None), Err(StackError::OutOfMem));
}

#[test]
fn kernel_stacks() {
    let mut mapper = mapper(MAX);
    let mut flush = Vec::new();
    let memory = mem(0x10_0000, 0x4000);
    let stack = Stack::kernel_new(Some(memory)).unwrap();
    assert_eq!(stack.bottom(), OFFSET + 0x10_0000);
    assert_eq!(stack.top(), OFFSET + 0x10_4000);
    assert_eq!(stack.dealloc(&mut mapper, &mut flush), vec![memory]);
    let stack = Stack::no_alloc_new(VirtRange::new(0x7000, 0x2000));
    assert_eq!((stack.bottom(), stack.size(), stack.top()), (0x7000, 0x2000, 0x9000));
    assert_eq!(stack.dealloc(&mut mapper, &mut flush), vec![]);
    assert_eq!(flush, vec![]);
}

#[test]
fn states_tell_what_is_waited_for() {
    let listening = ThreadState::Listening(ConnPid { conn_id: 1, pid: 2 });
    assert!(ThreadState::Join(4).is_proc_local());
    assert!(ThreadState::FutexBlock(0x1000).is_proc_local());
    assert!(!ThreadState::Sleep(5).is_proc_local());
    assert!(!listening.is_proc_local());
    assert_eq!(ThreadState::Sleep(5).sleep_nsec(), Some(5));
    assert_eq!(ThreadState::Ready.sleep_nsec(), None);
    assert_eq!(ThreadState::Join(4).join_tid(), Some(4));
    assert_eq!(ThreadState::Sleep(4).join_tid(), None);
    assert_eq!(ThreadState::FutexBlock(0x1000).futex_wait_addr(), Some(0x1000));
    assert_eq!(listening.futex_wait_addr(), None);
}

#[test]
fn kernel_threads_have_one_stack() {
    let mut mapper = mapper(MAX);
    let mut flush = Vec::new();
    let builder = Thread::new(5, String::from("worker"), regs(), PrivLevel::Kernel);
    assert_eq!(builder.request(), Stack::DEFAULT_SIZE);
    let memory = mem(0x10_0000, 0x2_0000);
    let thread = match builder.step(Some(memory), &mut mapper, &mut flush) {
        Ok(BuildStep::Done(thread)) => thread,
        _ => unreachable!(),
    };
    assert_eq!(thread.tid(), 5);
    assert_eq!(thread.name(), "worker");
    assert_eq!(thread.state(), ThreadState::Ready);
    assert_eq!(thread.run_time(), 0);
    assert_eq!(thread.stack(), Stack::Kernel(memory));
    assert_eq!(thread.regs.rsp, OFFSET + 0x12_0000 - 8);
    assert_eq!(thread.regs.call_rsp, 0);
    assert_eq!(thread.regs.uid, PrivLevel::Kernel);
    assert_eq!(thread.rcv_regs(), &Err(SysErr::Unknown));
    assert_eq!(thread.dealloc(Some(&mut mapper), &mut flush), vec![memory]);
}

#[test]
fn user_threads_have_two_stacks() {
    let mut mapper = mapper(MAX);
    let mut flush = Vec::new();
    let builder =
        Thread::new_stack_size(5, String::from("shell"), regs(), PrivLevel::User, 0x1801, 0x3000);
    assert_eq!(builder.request(), 0x2000);
    let memory = mem(0x10_0000, 0x2000);
    let builder = match builder.step(Some(memory), &mut mapper, &mut flush) {
        Ok(BuildStep::Ask(builder)) => builder,
        _ => unreachable!(),
    };
    assert_eq!(builder.request(), 0x3000);
    let kernel_memory = mem(0x20_0000, 0x3000);
    let thread = match builder.step(Some(kernel_memory), &mut mapper, &mut flush) {
        Ok(BuildStep::Done(thread)) => thread,
        _ => unreachable!(),
    };
    assert_eq!(thread.stack(), Stack::User(VirtRange::new(0x1000, 0x3000)));
    assert_eq!(thread.regs.rsp, 0x4000 - 8);
    assert_eq!(thread.regs.call_rsp, OFFSET + 0x20_3000 - 8);
    assert_eq!(thread.regs.uid, PrivLevel::User);
    // Nothing is given back for a process that is gone.
    assert_eq!(thread.dealloc(None::<&mut VirtMapper<Frames>>, &mut flush), vec![]);
    assert_eq!(thread.dealloc(Some(&mut mapper), &mut flush), vec![memory, kernel_memory]);
}

#[test]
fn threads_need_memory() {
    let mut mapper = mapper(MAX);
    let mut flush = Vec::new();
    let builder = Thread::new(5, String::from("a"), regs(), PrivLevel::Kernel);
    assert!(matches!(builder.step(None, &mut mapper, &mut flush), Err(StackError::OutOfMem)));
    let builder = Thread::new(5, String::from("b"), regs(), PrivLevel::SuperUser);
    assert!(matches!(builder.step(None, &mut mapper, &mut flush), Err(StackError::OutOfMem)));
    let builder = Thread::new(5, String::from("c"), regs(), PrivLevel::SuperUser);
    let range = VirtRange::new(PAGE_SIZE, 0x3000);
    match builder.step(Some(mem(0x10_0000, 0x2000)), &mut mapper, &mut flush) {
        Ok(BuildStep::Ask(builder)) => {
            assert!(matches!(
                builder.step(None, &mut mapper, &mut flush),
                Err(StackError::OutOfMem)
            ));
        }
        _ => unreachable!(),
    }
    // The first stack stays mapped.
    assert!(mapper.contains(range));
}

#[test]
fn idle_threads_run_on_a_given_stack() {
    let thread = idle();
    assert_eq!(thread.stack(), Stack::KernelNoAlloc(VirtRange::new(0x7000, 0x2000)));
    assert_eq!(thread.regs.rsp, 0x9000 - 8);
    assert_eq!(thread.regs.uid, PrivLevel::Kernel);
}

#[test]
fn messages_are_handled_on_a_new_stack() {
    let mut mapper = mapper(MAX);
    let mut flush = Vec::new();
    let mut thread = idle();
    let before = thread.regs;
    let args = MsgArgs { a1: 1, a2: 2, a3: 3, a4: 4 };
    let memory = mem(0x10_0000, 0x2_0000);
    assert_eq!(thread.push_conn_state(&args, Some(memory), &mut mapper, &mut flush), Ok(()));
    let stack = Stack::User(VirtRange::new(0x1000, 0x2_1000));
    assert_eq!(thread.stack(), stack);
    assert_eq!(thread.regs, before);
    let new_regs = Registers { rsp: 0x2_2000 - 8, args, ..before };
    assert_eq!(thread.rcv_regs(), &Ok(new_regs));

    assert!(thread.has_saved_state());
    assert_eq!(thread.pop_conn_state(&mut mapper, &mut flush), Ok(vec![memory]));
    assert!(!thread.has_saved_state());
    assert_eq!(thread.stack(), Stack::KernelNoAlloc(VirtRange::new(0x7000, 0x2000)));
    assert_eq!(thread.rcv_regs(), &Ok(before));
    assert!(!stack.is_mapped(&mapper));
    assert_eq!(thread.pop_conn_state(&mut mapper, &mut flush), Err(SysErr::InvlOp));
    assert_eq!(
        thread.push_conn_state(&args, None, &mut mapper, &mut flush),
        Err(SysErr::OutOfMem)
    );
}

#[test]
fn saved_states() {
    let stack = Stack::no_alloc_new(VirtRange::new(0x7000, 0x2000));
    let saved = ConnSaveState::new(regs(), stack);
    assert_eq!((saved.regs, saved.stack), (regs(), stack));
}

#[test]
fn blocking_is_prepared() {
    let thread = idle();
    assert_eq!(thread.prepare_block(ThreadState::FutexBlock(0x5000), true), Some(0x5000));
    assert_eq!(thread.prepare_block(ThreadState::FutexBlock(0x5000), false), None);
    assert_eq!(thread.prepare_block(ThreadState::Join(0x5000), true), None);
    assert_eq!(thread.prepare_block(ThreadState::Running, true), None);
    assert_eq!(thread.state(), ThreadState::Ready);
}

#[test]
fn blocking_tells_whether_to_schedule() {
    let mut thread = idle();
    assert!(!thread.block(ThreadState::Running));
    assert_eq!(thread.state(), ThreadState::Ready);
    assert!(thread.block(ThreadState::FutexBlock(0x5000)));
    assert_eq!(thread.state(), ThreadState::FutexBlock(0x5000));
    assert!(thread.block(ThreadState::Destroy));
    assert_eq!(thread.state(), ThreadState::Destroy);
    thread.set_state(ThreadState::Ready);
    assert_eq!(thread.state(), ThreadState::Ready);
}

#[test]
fn sleeping() {
    let mut thread = idle();
    assert!(thread.sleep(100, 23));
    assert_eq!(thread.state(), ThreadState::Sleep(123));
    thread.sleep(100, (1 << 64) + 1);
    assert_eq!(thread.state(), ThreadState::Sleep(101));
    assert!(thread.sleep_until(7));
    assert_eq!(thread.state(), ThreadState::Sleep(7));
}

#[test]
fn registers_are_set() {
    let mut thread = idle();
    let other = Registers { rip: 0x50_0000, ..thread.regs() };
    thread.set_regs(other);
    assert_eq!(thread.regs(), other);
    assert_eq!(thread.regs, other);
}

#[test]
fn threads_leave_a_process_that_is_alive() {
    let thread = idle();
    assert_eq!(thread.leaves_process(true), Some(3));
    assert_eq!(thread.leaves_process(false), None);
}

#[test]
fn waiting_threads_are_readied() {
    let thread = idle();
    let mut global = ThreadList::new();
    let mut local = ThreadList::new();
    global.push(ThreadState::Ready, 0x100);
    local.push(ThreadState::Join(3), 0x300);
    local.push(ThreadState::Join(4), 0x200);
    local.push(ThreadState::FutexBlock(3), 0x500);
    local.push(ThreadState::Join(3), 0x400);
    assert_eq!(thread.ready_waiting(false, Some(&mut global), Some(&mut local)), vec![]);
    assert_eq!(thread.ready_waiting(true, Some(&mut global), None), vec![]);
    assert_eq!(thread.ready_waiting(true, None, Some(&mut local)), vec![]);
    assert_eq!(local.threads_in(ThreadState::Join(3)), vec![0x300, 0x400]);
    assert_eq!(
        thread.ready_waiting(true, Some(&mut global), Some(&mut local)),
        vec![0x300, 0x400]
    );
    assert_eq!(global.threads_in(ThreadState::Ready), vec![0x100, 0x300, 0x400]);
    assert_eq!(local.threads_in(ThreadState::Join(3)), vec![]);
    assert_eq!(local.threads_in(ThreadState::Join(4)), vec![0x200]);
    assert_eq!(local.take_queue(ThreadState::FutexBlock(3)), vec![0x500]);
    assert_eq!(local.threads_in(ThreadState::FutexBlock(3)), vec![]);
}

#[test]
fn kernel_threads_ignore_the_second_size() {
    let mut mapper = mapper(MAX);
    let mut flush = Vec::new();
    for kstack_size in [0, 0x3000, u64::MAX] {
        let name = String::from("worker");
        let builder =
            Thread::new_stack_size(5, name, regs(), PrivLevel::Kernel, 0x2000, kstack_size);
        assert_eq!(builder.request(), 0x2000);
        let memory = mem(0x10_0000, 0x2000);
        let thread = match builder.step(Some(memory), &mut mapper, &mut flush) {
            Ok(BuildStep::Done(thread)) => thread,
            _ => unreachable!(),
        };
        assert_eq!(thread.stack(), Stack::Kernel(memory));
        assert_eq!(thread.regs().call_rsp, 0);
    }
}

#[test]
fn run_time_is_counted() {
    let mut thread = idle();
    thread.inc_time(40);
    thread.inc_time(2);
    assert_eq!(thread.run_time(), 42);
    thread.inc_time(u64::MAX);
    assert_eq!(thread.run_time(), 41);
}

#[test]
fn threads_move_between_queues() {
    let mut global = ThreadList::new();
    let mut local = ThreadList::new();
    let mut thread = idle();
    assert_eq!(thread.insert_into(0x100, true, Some(&mut global), None), Ok(0x100));
    global.push(ThreadState::Ready, 0x200);
    assert_eq!(global.threads_in(ThreadState::Ready), vec![0x100, 0x200]);

    let join = ThreadState::Join(9);
    assert_eq!(
        thread.move_to(0x100, join, true, Some(&mut global), Some(&mut local)),
        Ok(0x100)
    );
    assert_eq!(thread.state(), join);
    assert_eq!(global.threads_in(ThreadState::Ready), vec![0x200]);
    assert_eq!(local.threads_in(join), vec![0x100]);

    // The process is gone.
    assert_eq!(
        thread.move_to(0x100, ThreadState::Ready, false, Some(&mut global), Some(&mut local)),
        Err(0x100)
    );
    assert_eq!(thread.state(), join);
    assert_eq!(
        thread.remove_from_current(0x100, true, Some(&mut global), None),
        Err(0x100)
    );
    assert_eq!(local.threads_in(join), vec![0x100]);

    assert_eq!(
        thread.move_to(0x100, ThreadState::Ready, true, Some(&mut global), Some(&mut local)),
        Ok(0x100)
    );
    assert_eq!(global.threads_in(ThreadState::Ready), vec![0x200, 0x100]);
    assert_eq!(local.threads_in(join), vec![]);

    // Out of the one queue, but not into the other.
    assert_eq!(thread.move_to(0x100, join, true, Some(&mut global), None), Err(0x100));
    assert_eq!(thread.state(), join);
    assert_eq!(global.threads_in(ThreadState::Ready), vec![0x200]);
    assert_eq!(thread.insert_into(0x100, false, None, Some(&mut local)), Err(0x100));
}

#[test]
fn system_call_for_a_new_thread() {
    let mut vals = SyscallVals { a1: 0x40_0000, a2: 9 };
    assert_eq!(thread_entry(&vals), 0x40_0000);
    thread_new(&mut vals, Ok::<usize, StackError>(12));
    assert_eq!(vals, SyscallVals { a1: 12, a2: 0 });
    thread_new(&mut vals, Err(StackError::OutOfMem));
    assert_eq!(vals, SyscallVals { a1: 0, a2: 1 });
}

#[test]
fn system_call_to_block() {
    let mut thread = idle();
    assert!(!thread_block(&SyscallVals { a1: 0, a2: 5 }, &mut thread));
    assert_eq!(thread.state(), ThreadState::Ready);
    assert!(thread_block(&SyscallVals { a1: 1, a2: 5 }, &mut thread));
    assert_eq!(thread.state(), ThreadState::Destroy);
    assert!(thread_block(&SyscallVals { a1: 2, a2: 5 }, &mut thread));
    assert_eq!(thread.state(), ThreadState::Sleep(5));
    assert!(thread_block(&SyscallVals { a1: 3, a2: 5 }, &mut thread));
    assert_eq!(thread.state(), ThreadState::Join(5));
    assert!(!thread_block(&SyscallVals { a1: 4, a2: 5 }, &mut thread));
    assert_eq!(thread.state(), ThreadState::Join(5));
}
