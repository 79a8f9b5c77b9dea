# kernel_mem

The part of a small kernel that keeps address spaces and threads, written in Verus.

- `src/mem` holds page sizes and ranges (`addr`), flags (`flags`), page tables and the
  tree that they form (`page_table`, `walk`), the layout of what is mapped (`layout`),
  the pages of a layout (`mapping`), address spaces (`mapper`), the same behind a lock
  (`space`), what the processor makes of them (`translate`), and shared memory
  (`shared_mem`).
- `src/sched` holds stacks (`stack`), registers (`regs`), the queues that threads wait in
  (`list`), threads (`thread`), futexes (`futex`) and system calls on threads (`sys`).
- `app` holds the locks of threads, and the calls to the zone manager, the processor, the
  timer and the scheduler. It asks for memory, hands what it got to the library, and
  carries out what the library tells it to.

Addresses and sizes are `u64`. Page tables are kept by the physical address of their
frames; `app` writes them to the frames.
