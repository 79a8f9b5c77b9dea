//! Address spaces and threads of a small kernel.
//!
//! `mem` holds page sizes and ranges, the flags of a mapping, the layout of what
//! is mapped, page tables, the mapper that keeps an address space, and memory
//! that is shared between address spaces. `sched` holds stacks, threads, the
//! queues that threads wait in, and the system calls on threads.
//!
//! The modules whose names end in `laws` say what holds of the calls, by what goes into them
//! and what comes out.
pub mod mem;
pub mod sched;
