//! The stacks of threads.
use vstd::prelude::*;
use crate::mem::addr::{Allocation, VirtRange, PAGE_SIZE};
use crate::mem::flags;
use crate::mem::flags::{PageMappingFlags, PageTableFlags};
use crate::mem::layout;
use crate::mem::layout::{AllocType, VirtLayout, VirtLayoutElement, VirtLayoutElementType};
use crate::mem::mapper;
use crate::mem::mapper::{MapError, VirtMapper};
use crate::mem::mapping;
use crate::mem::page_table::FrameAllocator;
use crate::mem::translate;

verus! {

/// Why there is no stack.
#[derive(Debug, Clone, Copy, PartialEq, Eq, Structural)]
pub enum StackError {
    OutOfMem,
    NotMapped(MapError),
}

/// A stack.
#[derive(Debug, Clone, Copy, PartialEq, Eq, Structural)]
pub enum Stack {
    /// A mapped range, the first page of which is a guard page.
    User(VirtRange),
    Kernel(Allocation),
    /// Memory that is not given back.
    KernelNoAlloc(VirtRange),
}

/// What the memory of a user stack may be used for.
pub const STACK_FLAGS: u64 = PageMappingFlags::READ | PageMappingFlags::WRITE
    | PageMappingFlags::USER;

/// The pieces of a user stack: a guard page without memory, and the memory.
pub open spec fn stack_elements(mem: Allocation) -> Seq<VirtLayoutElement> {
    seq![
        VirtLayoutElement {
            phys_data: VirtLayoutElementType::Empty(PAGE_SIZE),
            map_size: PAGE_SIZE,
            flags: PageTableFlags {
                bits: PageTableFlags::mapping_bits(
                    PageMappingFlags { bits: PageMappingFlags::NONE },
                ),
            },
        },
        VirtLayoutElement {
            phys_data: VirtLayoutElementType::AllocedMem(mem),
            map_size: mem.len,
            flags: PageTableFlags {
                bits: PageTableFlags::mapping_bits(PageMappingFlags { bits: STACK_FLAGS }),
            },
        },
    ]
}

/// Whether a user stack with this memory can be mapped, or nothing of its size can.
pub open spec fn room_for<T: FrameAllocator>(mapper: VirtMapper<T>, mem: Allocation) -> bool {
    &&& PAGE_SIZE + mem.len <= u64::MAX
    &&& forall|range: VirtRange|
        range.size == PAGE_SIZE + mem.len && #[trigger] mapper::is_lowest_fit(
            mapper.zones(),
            mapper.max(),
            range,
        ) ==> mapper.clear_at(stack_elements(mem), range)
}

proof fn lemma_stack_flag_bits()
    by (bit_vector)
    ensures
        (1u64 | 1u64 << 1 | 1u64 << 3) & (1u64 | 1u64 << 1 | 1u64 << 2) != 0,
        (1u64 | 1u64 << 1 | 1u64 << 3) & (1u64 << 4) != 1u64 << 4,
        0u64 & (1u64 | 1u64 << 1 | 1u64 << 2) == 0,
{
}

/// The guard page maps nothing, and the rest maps all of the memory.
pub proof fn lemma_stack_elements(mem: Allocation)
    requires
        mem.wf(),
    ensures
        stack_elements(mem)[0].zone() is None,
        stack_elements(mem)[1].zone() == Some(mem.phys_range()),
        mapping::mappable(stack_elements(mem)),
        forall|i: int| 0 <= i < 2 ==> (#[trigger] stack_elements(mem)[i]).wf(),
        layout::total(stack_elements(mem)) == PAGE_SIZE + mem.len,
        layout::total(stack_elements(mem).drop_last()) == PAGE_SIZE,
        layout::owned_by(stack_elements(mem)) == seq![mem],
        !(PageMappingFlags { bits: STACK_FLAGS }).exact(),
        (PageMappingFlags { bits: STACK_FLAGS }).spec_accessible(),
        !(PageMappingFlags { bits: PageMappingFlags::NONE }).spec_accessible(),
{
    let elements = stack_elements(mem);
    lemma_stack_flag_bits();
    flags::lemma_mapping_flags(PageMappingFlags { bits: STACK_FLAGS });
    flags::lemma_mapping_flags(PageMappingFlags { bits: PageMappingFlags::NONE });
    assert(elements.drop_last() =~= seq![elements[0]]);
    assert(elements.drop_last().drop_last() =~= Seq::empty());
    reveal_with_fuel(layout::total, 3);
    reveal_with_fuel(layout::owned_by, 3);
    assert(layout::owned_by(elements) =~= seq![mem]);
}

impl Stack {
    pub const DEFAULT_SIZE: u64 = PAGE_SIZE * 32;
    pub const DEFAULT_KERNEL_SIZE: u64 = PAGE_SIZE * 16;

    /// The stack lies among the addresses, and a user stack has its guard page.
    pub open spec fn wf(self) -> bool {
        match self {
            Stack::User(range) => range.wf() && range.size >= PAGE_SIZE,
            Stack::Kernel(mem) => mem.virt + mem.len <= u64::MAX,
            Stack::KernelNoAlloc(range) => range.wf(),
        }
    }

    pub open spec fn spec_bottom(self) -> int {
        match self {
            Stack::User(range) => range.addr + PAGE_SIZE,
            Stack::Kernel(mem) => mem.virt as int,
            Stack::KernelNoAlloc(range) => range.addr as int,
        }
    }

    pub open spec fn spec_size(self) -> int {
        match self {
            Stack::User(range) => range.size - PAGE_SIZE,
            Stack::Kernel(mem) => mem.len as int,
            Stack::KernelNoAlloc(range) => range.size as int,
        }
    }

    pub open spec fn spec_top(self) -> int {
        self.spec_bottom() + self.spec_size()
    }

    /// How much memory has to be allocated for a user stack of `size` bytes.
    pub fn user_request(size: u64) -> (request: u64)
        requires
            size + PAGE_SIZE - 1 <= u64::MAX,
        ensures
            request == layout::page_ceil(size),
    {
        proof {
            lemma_stack_flag_bits();
        }
        match VirtLayoutElement::alloc_request(size, PageMappingFlags { bits: STACK_FLAGS }) {
            Some(request) => request,
            None => 0,
        }
    }

    /// The layout of a user stack. `mem` is what the zone manager answered to the
    /// request for memory.
    fn user_layout(size: u64, mem: Option<Allocation>) -> (layout: Option<VirtLayout>)
        requires
            size + PAGE_SIZE - 1 <= u64::MAX,
            mem matches Some(m) ==> m.wf(),
        ensures
            layout is Some <==> mem is Some,
            layout matches Some(l) ==> {
                &&& l.data@ == stack_elements(mem->0)
                &&& l.alloc_type == AllocType::Protected
                &&& l.fresh()
                &&& l.wf()
            },
    {
        proof {
            lemma_stack_flag_bits();
        }
        let guard = VirtLayoutElement::new(
            PAGE_SIZE,
            PageMappingFlags { bits: PageMappingFlags::NONE },
            None,
        );
        let memory = VirtLayoutElement::new(size, PageMappingFlags { bits: STACK_FLAGS }, mem);
        match (guard, memory) {
            (Some(guard), Some(memory)) => {
                let layout = VirtLayout::from_typed(vec![guard, memory], AllocType::Protected);
                assert(layout.data@ =~= stack_elements(mem->0));
                Some(layout)
            },
            _ => None,
        }
    }

    /// Whether a user stack with this memory can be mapped, or nothing of its size can.
    pub fn has_room<T: FrameAllocator>(mem: Allocation, mapper: &VirtMapper<T>) -> (room: bool)
        requires
            mapper.wf(),
            mem.wf(),
        ensures
            room == room_for(*mapper, mem),
    {
        if mem.len() > u64::MAX - PAGE_SIZE {
            return false;
        }
        proof {
            lemma_stack_elements(mem);
        }
        let range = match mapper.find_range(PAGE_SIZE + mem.len()) {
            Some(range) => range,
            None => {
                return true;
            },
        };
        assert forall|other: VirtRange|
            other.size == PAGE_SIZE + mem.len && #[trigger] mapper::is_lowest_fit(
                mapper.zones(),
                mapper.max(),
                other,
            ) implies other == range by {}
        match Stack::user_layout(0, Some(mem)) {
            Some(layout) => mapper.is_clear_at(&layout, range),
            None => false,
        }
    }

    /// A user stack of `size` bytes, mapped at the lowest range that it fits in.
    /// `mem` is what the zone manager answered to the request for memory. Where the
    /// stack cannot be mapped, the memory is not given back.
    pub fn user_new<T: FrameAllocator>(
        size: u64,
        mem: Option<Allocation>,
        mapper: &mut VirtMapper<T>,
        flush: &mut Vec<u64>,
    ) -> (stack: Result<Stack, StackError>)
        requires
            size + PAGE_SIZE - 1 <= u64::MAX,
            old(mapper).wf(),
            mem matches Some(m) ==> m.wf() && room_for(*old(mapper), m),
        ensures
            final(mapper).wf(),
            match stack {
                Ok(stack) => {
                    &&& mem is Some
                    &&& is_new_user_stack(
                        *old(mapper),
                        *final(mapper),
                        mem->0,
                        stack,
                        old(flush)@,
                        final(flush)@,
                    )
                },
                Err(e) => {
                    &&& *final(mapper) == *old(mapper)
                    &&& final(flush)@ == old(flush)@
                    &&& is_stack_error(*old(mapper), mem, e)
                },
            },
    {
        let layout = match Stack::user_layout(size, mem) {
            Some(layout) => layout,
            None => {
                return Err(StackError::OutOfMem);
            },
        };
        proof {
            lemma_stack_elements(mem->0);
        }
        match mapper.map(layout, flush) {
            Ok(range) => Ok(Stack::User(range)),
            Err(e) => Err(StackError::NotMapped(e)),
        }
    }

    /// A kernel stack. `mem` is what the zone manager answered to the request for
    /// memory.
    pub fn kernel_new(mem: Option<Allocation>) -> (stack: Result<Stack, StackError>)
        ensures
            stack == match mem {
                Some(mem) => Ok::<Stack, StackError>(Stack::Kernel(mem)),
                None => Err(StackError::OutOfMem),
            },
    {
        match mem {
            Some(mem) => Ok(Stack::Kernel(mem)),
            None => Err(StackError::OutOfMem),
        }
    }

    /// A kernel stack in memory that is not given back.
    pub fn no_alloc_new(range: VirtRange) -> (stack: Stack)
        ensures
            stack == Stack::KernelNoAlloc(range),
    {
        Stack::KernelNoAlloc(range)
    }

    /// Whether the mapper knows the range of a user stack.
    pub open spec fn is_mapped_in<T: FrameAllocator>(self, mapper: VirtMapper<T>) -> bool {
        self matches Stack::User(range) ==> exists|i: int|
            0 <= i < mapper.zones().len() && (#[trigger] mapper.zones()[i]).range == range
    }

    /// Whether the mapper knows the range of a user stack.
    pub fn is_mapped<T: FrameAllocator>(&self, mapper: &VirtMapper<T>) -> (mapped: bool)
        requires
            mapper.wf(),
        ensures
            mapped == self.is_mapped_in(*mapper),
    {
        match *self {
            Stack::User(range) => mapper.contains(range),
            _ => true,
        }
    }

    /// The memory that was allocated for the stack.
    pub open spec fn memory<T: FrameAllocator>(self, mapper: VirtMapper<T>) -> Seq<Allocation> {
        match self {
            Stack::User(range) => layout::owned_by(
                mapper.zones()[mapper::slot(mapper.zones(), range)].elements,
            ),
            Stack::Kernel(allocation) => seq![allocation],
            Stack::KernelNoAlloc(_) => Seq::empty(),
        }
    }

    /// What giving the stack back does to the mapped ranges and their pages: a user stack
    /// is unmapped, and nothing else changes.
    pub open spec fn is_unmapped<T: FrameAllocator>(
        self,
        before: VirtMapper<T>,
        after: VirtMapper<T>,
        flush_before: Seq<u64>,
        flush_after: Seq<u64>,
    ) -> bool {
        match self {
            Stack::User(range) => mapper::unmapped_from(
                before,
                after,
                range,
                flush_before,
                flush_after,
            ),
            _ => after == before && flush_after == flush_before,
        }
    }

    /// Unmaps the stack, and hands its memory back.
    pub fn dealloc<T: FrameAllocator>(
        &self,
        mapper: &mut VirtMapper<T>,
        flush: &mut Vec<u64>,
    ) -> (mem: Vec<Allocation>)
        requires
            old(mapper).wf(),
            self.is_mapped_in(*old(mapper)),
        ensures
            final(mapper).wf(),
            self.is_unmapped(*old(mapper), *final(mapper), old(flush)@, final(flush)@),
            mem@ == self.memory(*old(mapper)),
    {
        match *self {
            Stack::User(range) => {
                let layout = mapper.unmap(range, flush).unwrap();
                layout.dealloc()
            },
            Stack::Kernel(allocation) => vec![allocation],
            Stack::KernelNoAlloc(_) => Vec::new(),
        }
    }

    /// The lowest address of the stack. The guard page lies below it.
    pub fn bottom(&self) -> (addr: u64)
        requires
            self.wf(),
        ensures
            addr == self.spec_bottom(),
    {
        match *self {
            Stack::User(range) => range.addr() + PAGE_SIZE,
            Stack::Kernel(allocation) => allocation.as_u64(),
            Stack::KernelNoAlloc(range) => range.addr(),
        }
    }

    /// The address behind the stack.
    pub fn top(&self) -> (addr: u64)
        requires
            self.wf(),
        ensures
            addr == self.spec_top(),
    {
        self.bottom() + self.size()
    }

    /// How many bytes the stack has. The guard page is not counted.
    pub fn size(&self) -> (size: u64)
        requires
            self.wf(),
        ensures
            size == self.spec_size(),
    {
        match *self {
            Stack::User(range) => range.size() - PAGE_SIZE,
            Stack::Kernel(allocation) => allocation.len(),
            Stack::KernelNoAlloc(range) => range.size(),
        }
    }
}

/// What making a user stack does: the guard page and the memory are mapped at the
/// lowest range that they fit in.
pub open spec fn is_new_user_stack<T: FrameAllocator>(
    before: VirtMapper<T>,
    after: VirtMapper<T>,
    mem: Allocation,
    stack: Stack,
    flush_before: Seq<u64>,
    flush_after: Seq<u64>,
) -> bool {
    stack matches Stack::User(range) && {
        &&& range.size == PAGE_SIZE + mem.len
        &&& mapper::is_lowest_fit(before.zones(), before.max(), range)
        &&& mapper::mapped_to(
            before,
            after,
            stack_elements(mem),
            AllocType::Protected,
            range,
            flush_before,
            flush_after,
        )
    }
}

/// Why there is no user stack: there is no memory for it, or no range that it fits in.
pub open spec fn is_stack_error<T: FrameAllocator>(
    mapper: VirtMapper<T>,
    mem: Option<Allocation>,
    error: StackError,
) -> bool {
    match mem {
        None => error == StackError::OutOfMem,
        Some(m) => {
            &&& error == StackError::NotMapped(MapError::NoSpace)
            &&& forall|range: VirtRange|
                range.size == PAGE_SIZE + m.len ==> !#[trigger] mapper::fits(
                    mapper.zones(),
                    mapper.max(),
                    range,
                )
        },
    }
}

/// In an address space that ends below the kernel's half, there is room for every user
/// stack that fits in between the mapped ranges.
pub proof fn lemma_user_stacks_have_room<T: FrameAllocator>(
    mapper: VirtMapper<T>,
    mem: Allocation,
)
    requires
        mapper.wf(),
        mem.wf(),
        mapper.max() <= mapper::USER_END,
        PAGE_SIZE + mem.len <= u64::MAX,
    ensures
        room_for(mapper, mem),
{
    lemma_stack_elements(mem);
    assert forall|range: VirtRange|
        range.size == PAGE_SIZE + mem.len && #[trigger] mapper::is_lowest_fit(
            mapper.zones(),
            mapper.max(),
            range,
        ) implies mapper.clear_at(stack_elements(mem), range) by {
        mapper::lemma_free_is_clear(mapper, stack_elements(mem), range);
    }
}

/// Giving a user stack back right after it was made brings back the pages and the
/// mapped ranges that were there before, and hands back the memory that the stack was
/// made of.
pub proof fn lemma_dealloc_undoes_new<T: FrameAllocator>(
    before: VirtMapper<T>,
    made: VirtMapper<T>,
    after: VirtMapper<T>,
    mem: Allocation,
    stack: Stack,
    flushes: Seq<Seq<u64>>,
)
    requires
        before.wf(),
        made.wf(),
        after.wf(),
        mem.wf(),
        room_for(before, mem),
        flushes.len() == 3,
        is_new_user_stack(before, made, mem, stack, flushes[0], flushes[1]),
        stack.is_unmapped(made, after, flushes[1], flushes[2]),
    ensures
        stack.wf(),
        stack.is_mapped_in(made),
        stack.memory(made) == seq![mem],
        after.zones() == before.zones(),
        after.pages() == before.pages(),
        after.max() == before.max(),
        after.root_entry() == before.root_entry(),
{
    let range = stack->User_0;
    let p = mapper::slot(before.zones(), range);
    mapper::lemma_slot(before.zones(), before.max(), range);
    assert(made.zones()[p].range == range);
    assert(made.zones()[p].wf(made.max()));
    mapper::lemma_slot_of(made.zones(), made.max(), p);
    lemma_stack_elements(mem);
    mapper::lemma_unmap_undoes_map(
        before,
        made,
        after,
        stack_elements(mem),
        AllocType::Protected,
        range,
        flushes,
    );
}

/// The pieces of a user stack: the guard page is only kept free, and the memory lies
/// above it.
proof fn lemma_stack_pieces(mem: Allocation, addr: u64)
    requires
        mem.wf(),
        addr + PAGE_SIZE + mem.len <= u64::MAX,
    ensures
        ({
            let pieces = mapping::zones_from(stack_elements(mem), addr as int, true);
            &&& pieces.len() == 2
            &&& pieces[0].reserved
            &&& !pieces[1].reserved
            &&& pieces[1].phys_zone == mem.phys_range()
            &&& pieces[1].virt_zone == (VirtRange {
                addr: (addr + PAGE_SIZE) as u64,
                size: mem.len,
            })
            &&& pieces[1].flags.bits == PageTableFlags::mapping_bits(
                PageMappingFlags { bits: STACK_FLAGS },
            )
        }),
{
    lemma_stack_elements(mem);
    let elements = stack_elements(mem);
    assert(elements.drop_last() =~= seq![elements[0]]);
    assert(elements.drop_last().drop_last() =~= Seq::empty());
    reveal_with_fuel(mapping::zones_from, 3);
}

/// Every address of a new user stack leads to the byte of its memory that lies as far
/// above the start, and a thread in user mode may read and write it.
pub proof fn lemma_stack_is_mapped<T: FrameAllocator>(
    before: VirtMapper<T>,
    after: VirtMapper<T>,
    mem: Allocation,
    stack: Stack,
    flush_before: Seq<u64>,
    flush_after: Seq<u64>,
    a: u64,
)
    requires
        before.wf(),
        after.wf(),
        mem.wf(),
        mem.phys + mem.len <= translate::PHYS_END,
        is_new_user_stack(before, after, mem, stack, flush_before, flush_after),
        stack.spec_bottom() <= a < stack.spec_top(),
    ensures
        translate::translate(after.pages(), a) == Some(mem.phys + (a - stack.spec_bottom())),
        translate::access(after.pages(), a) == Some(
            PageTableFlags::mapping_bits(PageMappingFlags { bits: STACK_FLAGS })
                | mapper::size_flag((translate::page_of(after.pages(), a)->0).1),
        ),
{
    let range = stack->User_0;
    let p = mapper::slot(before.zones(), range);
    mapper::lemma_slot(before.zones(), before.max(), range);
    assert(after.zones()[p].range == range);
    assert(after.zones()[p].elements == stack_elements(mem));
    lemma_stack_pieces(mem, range.addr);
    translate::lemma_mapped_translates(after, p, 1, a);
}

/// A new user stack maps no memory below its bottom, where its guard page lies, nor
/// anywhere else but at its own addresses.
pub proof fn lemma_guard_page<T: FrameAllocator>(
    before: VirtMapper<T>,
    after: VirtMapper<T>,
    mem: Allocation,
    stack: Stack,
    flush_before: Seq<u64>,
    flush_after: Seq<u64>,
    a: u64,
)
    requires
        before.wf(),
        mem.wf(),
        room_for(before, mem),
        is_new_user_stack(before, after, mem, stack, flush_before, flush_after),
        mapping::is_address(a),
        !(stack.spec_bottom() <= a < stack.spec_top()),
    ensures
        translate::translate(after.pages(), a) == translate::translate(before.pages(), a),
        translate::access(after.pages(), a) == translate::access(before.pages(), a),
{
    let range = stack->User_0;
    lemma_stack_elements(mem);
    lemma_stack_pieces(mem, range.addr);
    translate::lemma_map_keeps_addresses(
        before,
        after,
        stack_elements(mem),
        AllocType::Protected,
        range,
        flush_before,
        flush_after,
        a,
    );
}

/// The addresses of the guard page of a new user stack lead nowhere.
pub proof fn lemma_guard_page_leads_nowhere<T: FrameAllocator>(
    before: VirtMapper<T>,
    after: VirtMapper<T>,
    mem: Allocation,
    stack: Stack,
    flush_before: Seq<u64>,
    flush_after: Seq<u64>,
    a: u64,
)
    requires
        before.wf(),
        mem.wf(),
        room_for(before, mem),
        is_new_user_stack(before, after, mem, stack, flush_before, flush_after),
        stack.spec_bottom() - PAGE_SIZE <= a < stack.spec_bottom(),
        a < mapper::KERNEL_START,
    ensures
        translate::translate(after.pages(), a) is None,
        translate::access(after.pages(), a) is None,
{
    let range = stack->User_0;
    assert(before.clear_at(stack_elements(mem), range));
    lemma_guard_page(before, after, mem, stack, flush_before, flush_after, a);
    assert forall|i: int| 0 <= i < before.zones().len() implies !(
    #[trigger] before.zones()[i]).range.holds(a) by {
        assert(before.zones()[i].range.disjoint(range));
    }
    translate::lemma_free_address_leads_nowhere(before, a);
}

} // verus!
