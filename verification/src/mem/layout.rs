//! What is mapped into an address space, piece by piece.
use vstd::prelude::*;
use crate::mem::addr;
use crate::mem::addr::{
    align_down_to_page_size, align_up, Allocation, PageSize, PhysFrame, PhysRange, PAGE_SIZE,
};
use crate::mem::flags;
use crate::mem::flags::{PageMappingFlags, PageTableFlags};

verus! {

/// `n` rounded up to whole pages.
pub open spec fn page_ceil(n: u64) -> u64 {
    ((n + PAGE_SIZE - 1) / (PAGE_SIZE as int) * (PAGE_SIZE as int)) as u64
}

/// The largest page that is no larger than `n`.
pub open spec fn page_within(n: u64) -> Option<PageSize> {
    if n >= PageSize::G1.bytes() {
        Some(PageSize::G1)
    } else if n >= PageSize::M2.bytes() {
        Some(PageSize::M2)
    } else if n >= PageSize::K4.bytes() {
        Some(PageSize::K4)
    } else {
        None
    }
}

fn round_to_pages(n: u64) -> (size: u64)
    requires
        n + PAGE_SIZE - 1 <= u64::MAX,
    ensures
        size == page_ceil(n),
        size % PAGE_SIZE == 0,
        size >= n,
{
    align_up(n, PAGE_SIZE)
}

fn largest_page(n: u64) -> (page: Option<PageSize>)
    ensures
        page == page_within(n),
{
    let page = PageSize::try_from_u64(align_down_to_page_size(n));
    proof {
        if n >= PageSize::G1.bytes() {
            assert(PageSize::G1.bytes() == addr::spec_align_down_to_page_size(n));
        } else if n >= PageSize::M2.bytes() {
            assert(PageSize::M2.bytes() == addr::spec_align_down_to_page_size(n));
        } else if n >= PageSize::K4.bytes() {
            assert(PageSize::K4.bytes() == addr::spec_align_down_to_page_size(n));
        }
    }
    page
}

/// To whom mapped memory belongs.
#[derive(Debug, Clone, Copy, PartialEq, Eq, Structural)]
pub enum AllocType {
    /// Memory that the process manages itself.
    VirtMem,
    /// The shared memory of this id.
    Shared(usize),
    /// Memory that only the kernel unmaps.
    Protected,
}

/// What stands behind a piece of a layout.
#[derive(Debug, Clone, Copy, PartialEq, Eq, Structural)]
pub enum VirtLayoutElementType {
    /// Physical memory that belongs to someone else.
    Mem(PhysRange),
    /// Memory that was allocated for the layout.
    AllocedMem(Allocation),
    /// No memory, only addresses that are kept free.
    Empty(u64),
}

impl VirtLayoutElementType {
    pub open spec fn spec_size(self) -> u64 {
        match self {
            VirtLayoutElementType::Mem(mem) => mem.size,
            VirtLayoutElementType::AllocedMem(mem) => mem.len,
            VirtLayoutElementType::Empty(size) => size,
        }
    }

    /// The physical memory that stands behind the piece.
    pub open spec fn range(self) -> Option<PhysRange> {
        match self {
            VirtLayoutElementType::Mem(mem) => Some(mem),
            VirtLayoutElementType::AllocedMem(mem) => Some(mem.phys_range()),
            VirtLayoutElementType::Empty(_) => None,
        }
    }

    /// The piece, with allocated memory taken for what it is in physical memory.
    pub open spec fn as_range(self) -> VirtLayoutElementType {
        match self {
            VirtLayoutElementType::AllocedMem(mem) => VirtLayoutElementType::Mem(mem.phys_range()),
            _ => self,
        }
    }

    pub fn size(&self) -> (size: u64)
        ensures
            size == self.spec_size(),
    {
        match *self {
            VirtLayoutElementType::Mem(mem) => mem.size(),
            VirtLayoutElementType::AllocedMem(mem) => mem.len(),
            VirtLayoutElementType::Empty(size) => size,
        }
    }
}

/// A piece of a layout.
#[derive(Debug, Clone, Copy, PartialEq, Eq, Structural)]
pub struct VirtLayoutElement {
    /// Whole pages of memory.
    pub phys_data: VirtLayoutElementType,
    /// How much of the address space the piece takes, in whole pages.
    pub map_size: u64,
    pub flags: PageTableFlags,
}

impl VirtLayoutElement {
    /// The piece is made of whole pages.
    pub open spec fn wf(self) -> bool {
        &&& self.map_size % PAGE_SIZE == 0
        &&& self.phys_data.spec_size() % PAGE_SIZE == 0
        &&& self.phys_data.range() matches Some(range) ==> range.wf() && range.addr % PAGE_SIZE
            == 0
        &&& self.flags.valid()
        &&& !flags::has_all(self.flags.bits, PageTableFlags::HUGE)
    }

    /// The physical memory that the piece maps.
    pub open spec fn zone(self) -> Option<PhysRange> {
        if self.flags.spec_present() {
            self.phys_data.range()
        } else {
            None
        }
    }

    /// Where the piece maps memory, it maps all of it.
    pub open spec fn maps_whole(self) -> bool {
        self.zone() matches Some(range) ==> range.size == self.map_size
    }

    /// How much memory has to be allocated for a new piece, if any.
    pub fn alloc_request(size: u64, flags: PageMappingFlags) -> (request: Option<u64>)
        requires
            size + PAGE_SIZE - 1 <= u64::MAX,
        ensures
            request == if flags.spec_accessible() {
                Some(page_ceil(size))
            } else {
                None::<u64>
            },
    {
        let size: u64 = round_to_pages(size);
        if flags.accessible() {
            Some(size)
        } else {
            None
        }
    }

    /// A piece of `size` bytes, rounded up to whole pages. `mem` is what the zone
    /// manager answered to the request for memory; it is not looked at where no
    /// memory is needed.
    pub fn new(size: u64, flags: PageMappingFlags, mem: Option<Allocation>) -> (element: Option<
        Self,
    >)
        requires
            size + PAGE_SIZE - 1 <= u64::MAX,
        ensures
            element == if !flags.spec_accessible() {
                Some(
                    VirtLayoutElement {
                        phys_data: VirtLayoutElementType::Empty(page_ceil(size)),
                        map_size: page_ceil(size),
                        flags: PageTableFlags { bits: PageTableFlags::mapping_bits(flags) },
                    },
                )
            } else {
                match mem {
                    Some(mem) => Some(
                        VirtLayoutElement {
                            phys_data: VirtLayoutElementType::AllocedMem(mem),
                            map_size: if flags.exact() {
                                page_ceil(size)
                            } else {
                                mem.len
                            },
                            flags: PageTableFlags { bits: PageTableFlags::mapping_bits(flags) },
                        },
                    ),
                    None => None,
                }
            },
            element matches Some(e) ==> {
                &&& e.flags.spec_present() == flags.spec_accessible()
                &&& (flags.spec_accessible() ==> mem->0.wf()) ==> e.wf()
            },
    {
        let size: u64 = round_to_pages(size);
        let phys_data;
        let map_size: u64;
        if flags.accessible() {
            let mem = match mem {
                Some(mem) => mem,
                None => {
                    return None;
                },
            };
            phys_data = VirtLayoutElementType::AllocedMem(mem);
            map_size =
            if flags.contains(PageMappingFlags::EXACT_SIZE) {
                size
            } else {
                mem.len()
            };
        } else {
            phys_data = VirtLayoutElementType::Empty(size);
            map_size = size;
        }
        Some(
            VirtLayoutElement {
                phys_data,
                map_size,
                flags: PageTableFlags::from_mapping_flags(flags),
            },
        )
    }

    /// A piece that maps memory which was allocated before. `size` is rounded up to
    /// whole pages, and counts only where the exact size is wanted.
    pub fn from_mem(mem: Allocation, size: u64, flags: PageMappingFlags) -> (element: Self)
        requires
            size + PAGE_SIZE - 1 <= u64::MAX,
        ensures
            element == (VirtLayoutElement {
                phys_data: VirtLayoutElementType::AllocedMem(mem),
                map_size: if flags.exact() && page_ceil(size) < mem.len {
                    page_ceil(size)
                } else {
                    mem.len
                },
                flags: PageTableFlags { bits: PageTableFlags::mapping_bits(flags) },
            }),
            element.flags.spec_present() == flags.spec_accessible(),
            mem.wf() ==> element.wf(),
    {
        let size: u64 = round_to_pages(size);
        VirtLayoutElement {
            phys_data: VirtLayoutElementType::AllocedMem(mem),
            map_size: if flags.contains(PageMappingFlags::EXACT_SIZE) {
                if mem.len() <= size {
                    mem.len()
                } else {
                    size
                }
            } else {
                mem.len()
            },
            flags: PageTableFlags::from_mapping_flags(flags),
        }
    }

    /// A piece that maps memory which belongs to someone else.
    pub fn from_range(range: PhysRange, flags: PageMappingFlags) -> (element: Self)
        ensures
            element == (VirtLayoutElement {
                phys_data: VirtLayoutElementType::Mem(range),
                map_size: range.size,
                flags: PageTableFlags { bits: PageTableFlags::mapping_bits(flags) },
            }),
            element.flags.spec_present() == flags.spec_accessible(),
            range.wf() && range.addr % PAGE_SIZE == 0 && range.size % PAGE_SIZE == 0
                ==> element.wf(),
    {
        VirtLayoutElement {
            phys_data: VirtLayoutElementType::Mem(range),
            map_size: range.size(),
            flags: PageTableFlags::from_mapping_flags(flags),
        }
    }

    /// How much of the address space the piece takes.
    pub fn size(&self) -> (size: u64)
        ensures
            size == self.map_size,
    {
        self.map_size
    }

    /// How much memory stands behind the piece.
    pub fn raw_size(&self) -> (size: u64)
        ensures
            size == self.phys_data.spec_size(),
    {
        self.phys_data.size()
    }

    /// The largest page that can be taken off the front of the piece.
    pub open spec fn spec_take_size(self) -> Option<PageSize> {
        let behind = match self.phys_data.range() {
            Some(range) => addr::take_size(range.addr, range.size),
            None => page_within(self.phys_data.spec_size()),
        };
        match (behind, page_within(self.map_size)) {
            (Some(a), Some(b)) => Some(a.spec_smaller(b)),
            _ => None,
        }
    }

    /// The largest page that can be taken off the front of the piece. Allocated
    /// memory is from then on taken for what it is in physical memory.
    pub fn get_take_size(&mut self) -> (page: Option<PageSize>)
        ensures
            page == old(self).spec_take_size(),
            *final(self) == (VirtLayoutElement {
                phys_data: old(self).phys_data.as_range(),
                ..*old(self)
            }),
    {
        let psize = match self.phys_data {
            VirtLayoutElementType::AllocedMem(mem) => {
                let prange = mem.as_phys_zone();
                self.phys_data = VirtLayoutElementType::Mem(prange);
                prange.get_take_size()
            },
            VirtLayoutElementType::Mem(mem) => mem.get_take_size(),
            VirtLayoutElementType::Empty(mem) => largest_page(mem),
        };
        let psize2 = largest_page(self.map_size);
        match (psize, psize2) {
            (Some(a), Some(b)) => Some(a.smaller(b)),
            _ => None,
        }
    }

    /// Whether a page of this size can be taken off the front of the piece.
    pub open spec fn takeable(self, size: PageSize) -> bool {
        match self.phys_data.range() {
            Some(range) => addr::can_take(range.addr, range.size, size),
            None => size.bytes() <= self.phys_data.spec_size(),
        }
    }

    /// Takes a page off the front of the piece. Where there is no memory behind it
    /// the frame is the one at zero, without flags.
    pub fn take(&mut self, size: PageSize) -> (taken: Option<(PhysFrame, PageTableFlags)>)
        requires
            old(self).phys_data.range() matches Some(range) ==> range.wf(),
            old(self).takeable(size) ==> size.bytes() <= old(self).map_size,
        ensures
            !old(self).takeable(size) ==> taken is None && *final(self) == *old(self),
            old(self).takeable(size) ==> {
                &&& final(self).map_size == old(self).map_size - size.bytes()
                &&& final(self).flags == old(self).flags
                &&& match old(self).phys_data.range() {
                    Some(range) => {
                        &&& taken == Some((PhysFrame::spec_new(range.addr, size), old(self).flags))
                        &&& final(self).phys_data == VirtLayoutElementType::Mem(range.after(size))
                    },
                    None => {
                        &&& taken == Some(
                            (PhysFrame::spec_new(0, size), PageTableFlags { bits: 0 }),
                        )
                        &&& final(self).phys_data == VirtLayoutElementType::Empty(
                            (old(self).phys_data.spec_size() - size.bytes()) as u64,
                        )
                    },
                }
            },
    {
        let mut flags = self.flags;
        let pframe = match self.phys_data {
            VirtLayoutElementType::Mem(mem) => {
                let mut prange = mem;
                let frame = match prange.take(size) {
                    Some(frame) => frame,
                    None => {
                        return None;
                    },
                };
                self.phys_data = VirtLayoutElementType::Mem(prange);
                frame
            },
            VirtLayoutElementType::Empty(mem) => {
                if size.as_u64() > mem {
                    return None;
                }
                self.phys_data = VirtLayoutElementType::Empty(mem - size.as_u64());
                flags = PageTableFlags { bits: PageTableFlags::NONE };
                PhysFrame::new(0, size)
            },
            VirtLayoutElementType::AllocedMem(mem) => {
                let mut prange = mem.as_phys_zone();
                let frame = match prange.take(size) {
                    Some(frame) => frame,
                    None => {
                        return None;
                    },
                };
                self.phys_data = VirtLayoutElementType::Mem(prange);
                frame
            },
        };
        self.map_size = self.map_size - size.as_u64();
        Some((pframe, flags))
    }

    /// The physical memory that the piece maps: none where nothing stands behind it
    /// or where it may not be accessed.
    pub fn as_phys_zone(&self) -> (range: Option<PhysRange>)
        ensures
            range == self.zone(),
    {
        if !self.flags.present() {
            return None;
        }
        match self.phys_data {
            VirtLayoutElementType::AllocedMem(mem) => Some(mem.as_phys_zone()),
            VirtLayoutElementType::Mem(mem) => Some(mem),
            VirtLayoutElementType::Empty(_) => None,
        }
    }

    /// The memory that was allocated for the piece.
    pub open spec fn owned(self) -> Option<Allocation> {
        match self.phys_data {
            VirtLayoutElementType::AllocedMem(mem) => Some(mem),
            _ => None,
        }
    }

    /// The memory that goes back to the zone manager with this piece.
    pub fn dealloc(&self) -> (mem: Option<Allocation>)
        ensures
            mem == self.owned(),
    {
        if let VirtLayoutElementType::AllocedMem(mem) = self.phys_data {
            Some(mem)
        } else {
            None
        }
    }
}

/// How much of the address space some pieces take.
pub open spec fn total(elements: Seq<VirtLayoutElement>) -> int
    decreases elements.len(),
{
    if elements.len() == 0 {
        0
    } else {
        total(elements.drop_last()) + elements.last().map_size
    }
}

/// The memory that was allocated for some pieces, in order.
pub open spec fn owned_by(elements: Seq<VirtLayoutElement>) -> Seq<Allocation>
    decreases elements.len(),
{
    if elements.len() == 0 {
        Seq::empty()
    } else {
        match elements.last().owned() {
            Some(mem) => owned_by(elements.drop_last()).push(mem),
            None => owned_by(elements.drop_last()),
        }
    }
}

/// What goes back to the zone manager is the memory that was allocated for the pieces: each
/// allocation as often as it stands behind a piece, and nothing else.
pub proof fn lemma_owned_as_often_as_it_stands(elements: Seq<VirtLayoutElement>, mem: Allocation)
    ensures
        Set::new(
            |j: int|
                0 <= j < elements.len() && elements[j].phys_data
                    == VirtLayoutElementType::AllocedMem(mem),
        ).finite(),
        owned_by(elements).to_multiset().count(mem) == Set::new(
            |j: int|
                0 <= j < elements.len() && elements[j].phys_data
                    == VirtLayoutElementType::AllocedMem(mem),
        ).len(),
    decreases elements.len(),
{
    broadcast use vstd::seq_lib::group_to_multiset_ensures;

    let all = Set::new(
        |j: int|
            0 <= j < elements.len() && elements[j].phys_data == VirtLayoutElementType::AllocedMem(
                mem,
            ),
    );
    if elements.len() == 0 {
        assert(all =~= Set::empty());
        assert(!owned_by(elements).contains(mem));
    } else {
        let front = elements.drop_last();
        let before = Set::new(
            |j: int|
                0 <= j < front.len() && front[j].phys_data == VirtLayoutElementType::AllocedMem(
                    mem,
                ),
        );
        lemma_owned_as_often_as_it_stands(front, mem);
        if elements.last().phys_data == VirtLayoutElementType::AllocedMem(mem) {
            assert(all =~= before.insert(front.len() as int));
        } else {
            assert(all =~= before);
        }
    }
}

/// What goes back to the zone manager comes in the order of the pieces that it stands behind.
pub proof fn lemma_owned_in_order(elements: Seq<VirtLayoutElement>)
    ensures
        owned_by(elements) == elements.filter(
            |piece: VirtLayoutElement| piece.phys_data is AllocedMem,
        ).map_values(|piece: VirtLayoutElement| piece.phys_data->AllocedMem_0),
    decreases elements.len(),
{
    reveal(Seq::filter);
    if elements.len() > 0 {
        lemma_owned_in_order(elements.drop_last());
    }
    assert(owned_by(elements) =~= elements.filter(
        |piece: VirtLayoutElement| piece.phys_data is AllocedMem,
    ).map_values(|piece: VirtLayoutElement| piece.phys_data->AllocedMem_0));
}

/// Deleting a mapped piece loses no memory of the layout and duplicates none: what is
/// owned is owned by the pieces that are left or by those that wait to be given back.
pub proof fn lemma_delete_keeps_memory(
    data: Seq<VirtLayoutElement>,
    dealloc_que: Seq<VirtLayoutElement>,
)
    requires
        data.len() > 0,
    ensures
        (owned_by(data.drop_last()) + owned_by(dealloc_que.push(data.last()))).to_multiset() == (
        owned_by(data) + owned_by(dealloc_que)).to_multiset(),
{
    broadcast use vstd::seq_lib::group_to_multiset_ensures;

    let left = owned_by(data.drop_last());
    let waiting = owned_by(dealloc_que);
    assert(dealloc_que.push(data.last()).drop_last() =~= dealloc_que);
    match data.last().owned() {
        Some(mem) => {
            vstd::seq_lib::lemma_multiset_commutative(left, waiting.push(mem));
            vstd::seq_lib::lemma_multiset_commutative(left.push(mem), waiting);
            assert((left + waiting.push(mem)).to_multiset() =~= (left.push(mem)
                + waiting).to_multiset());
        },
        None => {},
    }
}

pub proof fn lemma_total_add(a: Seq<VirtLayoutElement>, b: Seq<VirtLayoutElement>)
    ensures
        total(a + b) == total(a) + total(b),
    decreases b.len(),
{
    if b.len() == 0 {
        assert(a + b =~= a);
    } else {
        assert((a + b).drop_last() =~= a + b.drop_last());
        lemma_total_add(a, b.drop_last());
    }
}

/// Pieces take as much of the address space as their sizes add up to.
pub proof fn lemma_total_is_sum(elements: Seq<VirtLayoutElement>)
    ensures
        total(elements) == elements.fold_left(
            0int,
            |sum: int, piece: VirtLayoutElement| sum + piece.map_size,
        ),
    decreases elements.len(),
{
    if elements.len() > 0 {
        lemma_total_is_sum(elements.drop_last());
    }
}

pub proof fn lemma_total_nonneg(a: Seq<VirtLayoutElement>)
    ensures
        total(a) >= 0,
    decreases a.len(),
{
    if a.len() > 0 {
        lemma_total_nonneg(a.drop_last());
    }
}

/// The first `n` pieces take no more than all of them.
pub proof fn lemma_total_take(a: Seq<VirtLayoutElement>, n: int)
    requires
        0 <= n <= a.len(),
    ensures
        total(a) == total(a.take(n)) + total(a.skip(n)),
        0 <= total(a.take(n)) <= total(a),
        0 <= total(a.skip(n)),
{
    assert(a.take(n) + a.skip(n) =~= a);
    lemma_total_add(a.take(n), a.skip(n));
    lemma_total_nonneg(a.take(n));
    lemma_total_nonneg(a.skip(n));
}

pub proof fn lemma_take_one_more(a: Seq<VirtLayoutElement>, n: int)
    requires
        0 <= n < a.len(),
    ensures
        a.take(n + 1).drop_last() == a.take(n),
        a.take(n + 1).last() == a[n],
        total(a.take(n + 1)) == total(a.take(n)) + a[n].map_size,
{
    assert(a.take(n + 1).drop_last() =~= a.take(n));
}

/// A sequence of pieces that is mapped as a whole. The first `dirty_index` of them
/// are mapped, and so are those that wait to be given back.
#[derive(Debug, Clone)]
pub struct VirtLayout {
    pub data: Vec<VirtLayoutElement>,
    /// Pieces that were deleted while they were mapped, the last of the layout
    /// first.
    pub dealloc_que: Vec<VirtLayoutElement>,
    /// How many pieces at the front are mapped as they are.
    pub dirty_index: usize,
    /// How much of the address space is mapped.
    pub clean_size: u64,
    pub alloc_type: AllocType,
}

impl VirtLayout {
    /// What counts as mapped are the clean pieces and those that were deleted.
    pub open spec fn wf(self) -> bool {
        &&& self.dirty_index <= self.data@.len()
        &&& self.clean_size == total(self.data@.take(self.dirty_index as int)) + total(
            self.dealloc_que@,
        )
    }

    /// Nothing of the layout is mapped.
    pub open spec fn fresh(self) -> bool {
        &&& self.dirty_index == 0
        &&& self.clean_size == 0
        &&& self.dealloc_que@.len() == 0
    }

    /// All of the layout is mapped, and nothing else.
    pub open spec fn synced(self) -> bool {
        &&& self.dirty_index == self.data@.len()
        &&& self.clean_size == total(self.data@)
        &&& self.dealloc_que@.len() == 0
    }

    /// A layout without pieces.
    pub fn new() -> (layout: Self)
        ensures
            layout.data@ == Seq::<VirtLayoutElement>::empty(),
            layout.fresh(),
            layout.wf(),
            layout.alloc_type == AllocType::VirtMem,
    {
        let layout = VirtLayout {
            data: Vec::new(),
            dealloc_que: Vec::new(),
            dirty_index: 0,
            clean_size: 0,
            alloc_type: AllocType::VirtMem,
        };
        assert(layout.data@.take(0) =~= Seq::empty());
        layout
    }

    /// A layout of memory that the process manages itself.
    pub fn from(vec: Vec<VirtLayoutElement>) -> (layout: Self)
        ensures
            layout.data@ == vec@,
            layout.fresh(),
            layout.wf(),
            layout.alloc_type == AllocType::VirtMem,
    {
        VirtLayout::from_typed(vec, AllocType::VirtMem)
    }

    /// A layout of memory that belongs to `alloc_type`.
    pub fn from_typed(vec: Vec<VirtLayoutElement>, alloc_type: AllocType) -> (layout: Self)
        ensures
            layout.data@ == vec@,
            layout.fresh(),
            layout.wf(),
            layout.alloc_type == alloc_type,
    {
        assert(vec@.take(0) =~= Seq::empty());
        VirtLayout {
            data: vec,
            dealloc_que: Vec::new(),
            dirty_index: 0,
            clean_size: 0,
            alloc_type,
        }
    }

    /// A layout with at least one piece.
    pub fn try_from(vec: Vec<VirtLayoutElement>) -> (layout: Option<Self>)
        ensures
            layout is None <==> vec@.len() == 0,
            layout matches Some(l) ==> {
                &&& l.data@ == vec@
                &&& l.fresh()
                &&& l.wf()
                &&& l.alloc_type == AllocType::VirtMem
            },
    {
        if vec.len() == 0 {
            None
        } else {
            Some(VirtLayout::from(vec))
        }
    }

    /// Adds a piece at the end. It is not mapped yet.
    pub fn push(&mut self, elem: VirtLayoutElement)
        ensures
            final(self).data@ == old(self).data@.push(elem),
            final(self).dealloc_que@ == old(self).dealloc_que@,
            final(self).dirty_index == old(self).dirty_index,
            final(self).clean_size == old(self).clean_size,
            final(self).alloc_type == old(self).alloc_type,
            old(self).wf() ==> final(self).wf(),
    {
        self.data.push(elem);
        proof {
            if old(self).wf() {
                assert(self.data@.take(self.dirty_index as int) =~= old(self).data@.take(
                    self.dirty_index as int,
                ));
            }
        }
    }

    /// Deletes the last piece. One that is mapped waits to be unmapped and given
    /// back; one that is not mapped is forgotten.
    pub fn pop_delete(&mut self)
        ensures
            old(self).wf() ==> final(self).wf(),
            final(self).clean_size == old(self).clean_size,
            final(self).alloc_type == old(self).alloc_type,
            old(self).data@.len() == 0 ==> {
                &&& final(self).data@ == old(self).data@
                &&& final(self).dealloc_que@ == old(self).dealloc_que@
                &&& final(self).dirty_index == old(self).dirty_index
            },
            old(self).data@.len() > 0 ==> {
                &&& final(self).data@ == old(self).data@.drop_last()
                &&& if old(self).data@.len() <= old(self).dirty_index {
                    &&& final(self).dealloc_que@ == old(self).dealloc_que@.push(
                        old(self).data@.last(),
                    )
                    &&& final(self).dirty_index == final(self).data@.len()
                } else {
                    &&& final(self).dealloc_que@ == old(self).dealloc_que@
                    &&& final(self).dirty_index == old(self).dirty_index
                }
            },
    {
        if let Some(elem) = self.data.pop() {
            if self.data.len() < self.dirty_index {
                self.dealloc_que.push(elem);
                self.dirty_index = self.data.len();
            }
            proof {
                if old(self).wf() {
                    let n = self.dirty_index as int;
                    if old(self).data@.len() <= old(self).dirty_index {
                        lemma_take_one_more(old(self).data@, n);
                        assert(old(self).data@.take(n + 1) =~= old(self).data@.take(
                            old(self).dirty_index as int,
                        ));
                        assert(self.dealloc_que@.drop_last() =~= old(self).dealloc_que@);
                    }
                    assert(self.data@.take(n) =~= old(self).data@.take(n));
                }
            }
        }
    }

    /// How much of the address space the layout takes.
    pub fn size(&self) -> (size: u64)
        requires
            total(self.data@) <= u64::MAX,
        ensures
            size == total(self.data@),
    {
        let mut size: u64 = 0;
        let mut i: usize = 0;
        assert(self.data@.take(0) =~= Seq::empty());
        while i < self.data.len()
            invariant
                0 <= i <= self.data@.len(),
                size == total(self.data@.take(i as int)),
                total(self.data@) <= u64::MAX,
            decreases self.data@.len() - i,
        {
            proof {
                lemma_take_one_more(self.data@, i as int);
                lemma_total_take(self.data@, i + 1);
            }
            size = size + self.data[i].size();
            i = i + 1;
        }
        assert(self.data@.take(i as int) =~= self.data@);
        size
    }

    /// The pieces that are mapped as they are.
    pub fn clean_slice(&self) -> (elements: &[VirtLayoutElement])
        requires
            self.dirty_index <= self.data@.len(),
        ensures
            elements@ == self.data@.take(self.dirty_index as int),
    {
        vstd::slice::slice_subrange(self.data.as_slice(), 0, self.dirty_index)
    }

    /// The pieces that are not mapped yet.
    pub fn dirty_slice(&self) -> (elements: &[VirtLayoutElement])
        requires
            self.dirty_index <= self.data@.len(),
        ensures
            elements@ == self.data@.skip(self.dirty_index as int),
    {
        vstd::slice::slice_subrange(self.data.as_slice(), self.dirty_index, self.data.len())
    }

    /// How much of the address space is mapped.
    pub fn old_clean_size(&self) -> (size: u64)
        ensures
            size == self.clean_size,
    {
        self.clean_size
    }

    /// The memory that goes back to the zone manager with this layout, in order.
    pub fn dealloc(&self) -> (mem: Vec<Allocation>)
        ensures
            mem@ == owned_by(self.data@) + owned_by(self.dealloc_que@),
    {
        let mut mem: Vec<Allocation> = Vec::new();
        collect_owned(&self.data, &mut mem);
        collect_owned(&self.dealloc_que, &mut mem);
        assert(mem@ =~= owned_by(self.data@) + owned_by(self.dealloc_que@));
        mem
    }

    /// Counts everything as mapped, and hands back the memory of the deleted
    /// pieces. To be called once the deleted pieces are unmapped.
    pub fn sync_mem(&mut self) -> (mem: Vec<Allocation>)
        requires
            old(self).wf(),
            old(self).clean_size + total(old(self).data@.skip(old(self).dirty_index as int))
                <= u64::MAX,
        ensures
            final(self).data@ == old(self).data@,
            final(self).alloc_type == old(self).alloc_type,
            final(self).synced(),
            final(self).wf(),
            mem@ == owned_by(old(self).dealloc_que@),
    {
        let ghost dirty = self.data@.skip(self.dirty_index as int);
        let ghost que = self.dealloc_que@;
        let ghost clean = self.data@.take(self.dirty_index as int);
        let mut i: usize = self.dirty_index;
        assert(dirty.take(0) =~= Seq::empty());
        while i < self.data.len()
            invariant
                self.dirty_index <= i <= self.data@.len(),
                self.data@ == old(self).data@,
                self.dealloc_que@ == que,
                self.dirty_index == old(self).dirty_index,
                self.alloc_type == old(self).alloc_type,
                dirty == self.data@.skip(self.dirty_index as int),
                self.clean_size == old(self).clean_size + total(dirty.take(i - self.dirty_index)),
                old(self).clean_size + total(dirty) <= u64::MAX,
            decreases self.data@.len() - i,
        {
            proof {
                lemma_take_one_more(dirty, i - self.dirty_index);
                lemma_total_take(dirty, i - self.dirty_index + 1);
            }
            self.clean_size = self.clean_size + self.data[i].size();
            i = i + 1;
        }
        assert(dirty.take(i - self.dirty_index) =~= dirty);
        self.dirty_index = self.data.len();
        let mut mem: Vec<Allocation> = Vec::new();
        let mut j: usize = 0;
        proof {
            lemma_total_take(old(self).data@, old(self).dirty_index as int);
            lemma_total_nonneg(clean);
            assert(que.take(0) =~= Seq::empty());
        }
        while j < self.dealloc_que.len()
            invariant
                0 <= j <= que.len(),
                self.data@ == old(self).data@,
                self.alloc_type == old(self).alloc_type,
                self.dealloc_que@ == que,
                self.dirty_index == self.data@.len(),
                self.clean_size == total(self.data@) + total(que) - total(que.take(j as int)),
                total(self.data@) >= 0,
                mem@ == owned_by(que.take(j as int)),
            decreases que.len() - j,
        {
            proof {
                lemma_take_one_more(que, j as int);
                lemma_total_take(que, j + 1);
            }
            let elem = self.dealloc_que[j];
            self.clean_size = self.clean_size - elem.size();
            match elem.dealloc() {
                Some(allocation) => {
                    mem.push(allocation);
                },
                None => {},
            }
            j = j + 1;
        }
        assert(que.take(j as int) =~= que);
        self.dealloc_que.clear();
        assert(self.data@.take(self.dirty_index as int) =~= self.data@);
        mem
    }

    /// Counts everything as not mapped, so that it is mapped again.
    pub fn touch(&mut self)
        ensures
            final(self).data@ == old(self).data@,
            final(self).dealloc_que@ == old(self).dealloc_que@,
            final(self).alloc_type == old(self).alloc_type,
            final(self).dirty_index == 0,
            final(self).clean_size == 0,
            old(self).dealloc_que@.len() == 0 ==> final(self).fresh() && final(self).wf(),
    {
        self.dirty_index = 0;
        self.clean_size = 0;
        assert(self.data@.take(0) =~= Seq::empty());
    }
}

fn collect_owned(elements: &Vec<VirtLayoutElement>, mem: &mut Vec<Allocation>)
    ensures
        final(mem)@ == old(mem)@ + owned_by(elements@),
{
    let mut i: usize = 0;
    assert(elements@.take(0) =~= Seq::empty());
    assert(mem@ =~= old(mem)@ + owned_by(elements@.take(0)));
    while i < elements.len()
        invariant
            0 <= i <= elements@.len(),
            mem@ == old(mem)@ + owned_by(elements@.take(i as int)),
        decreases elements@.len() - i,
    {
        proof {
            lemma_take_one_more(elements@, i as int);
        }
        match elements[i].dealloc() {
            Some(allocation) => {
                mem.push(allocation);
            },
            None => {},
        }
        i = i + 1;
        assert(mem@ =~= old(mem)@ + owned_by(elements@.take(i as int)));
    }
    assert(elements@.take(i as int) =~= elements@);
}

} // verus!
