//! What holds of the calls on memory, said of what goes into a call and what comes out.
//!
//! Each law takes the arguments and the results of calls, and that the calls gave these
//! results for these arguments.
use vstd::prelude::*;
use vstd::arithmetic::power2;
use crate::mem::addr;
use crate::mem::addr::{
    align_down, align_down_to_page_size, align_up, get_bits, Allocation, PageSize, PhysFrame,
    PhysRange, VirtFrame, VirtRange,
};
use crate::mem::flags;
use crate::mem::flags::{PageMappingFlags, PageTableFlags, SMemFlags};
use crate::mem::layout;
use crate::mem::layout::{AllocType, VirtLayout, VirtLayoutElement, VirtLayoutElementType};

verus! {

/// Each flag of an entry comes from its own flags of the mapping, whatever the others are:
/// the entry is present where the mapping may be read, written or executed, writable where
/// it may be written, for user mode where the mapping is, and not executable where the
/// mapping may not be executed. No other bit is set.
pub proof fn lemma_entry_flags_of_mapping(mapping: PageMappingFlags, entry: PageTableFlags)
    requires
        call_ensures(PageTableFlags::from_mapping_flags, (mapping,), entry),
    ensures
        entry.bits & 1 != 0 <==> mapping.bits & 1 != 0 || mapping.bits & 2 != 0 || mapping.bits & 4
            != 0,
        entry.bits & 2 != 0 <==> mapping.bits & 2 != 0,
        entry.bits & 4 != 0 <==> mapping.bits & 8 != 0,
        entry.bits & 0x8000_0000_0000_0000 != 0 <==> mapping.bits & 4 == 0,
        entry.bits & 0x7fff_ffff_ffff_fff8 == 0,
{
    flags::lemma_mapping_bit_by_bit(mapping);
}

/// A mapping of shared memory may be read, written and executed where the shared memory may
/// be, each for itself. It is not for user mode, and has no other flag.
pub proof fn lemma_mapping_flags_of_shared(shared: SMemFlags, mapping: PageMappingFlags)
    requires
        call_ensures(PageMappingFlags::from_shared_flags, (shared,), mapping),
    ensures
        mapping.bits & 1 != 0 <==> shared.bits as u64 & 1 != 0,
        mapping.bits & 2 != 0 <==> shared.bits as u64 & 2 != 0,
        mapping.bits & 4 != 0 <==> shared.bits as u64 & 4 != 0,
        mapping.bits & 0xffff_ffff_ffff_fff8 == 0,
{
    flags::lemma_shared_bit_by_bit(shared);
}

proof fn lemma_flag_numbers()
    by (bit_vector)
    ensures
        1u64 | 1u64 << 1 | 1u64 << 2 == 7,
        1u64 << 1 == 2,
        1u64 << 2 == 4,
        1u64 << 3 == 8,
        1u64 << 4 == 16,
        1u64 << 5 == 32,
        1u64 << 6 == 64,
        1u64 << 7 == 128,
        1u64 << 8 == 256,
        1u64 << 63 == 0x8000_0000_0000_0000,
        1u8 << 1 == 2,
        1u8 << 2 == 4,
{
}

/// The bits that the flags have: those of entries are the processor's.
pub proof fn lemma_flag_values()
    ensures
        PageTableFlags::NONE == 0,
        PageTableFlags::PRESENT == 1,
        PageTableFlags::WRITABLE == 2,
        PageTableFlags::USER == 4,
        PageTableFlags::PWT == 8,
        PageTableFlags::PCD == 16,
        PageTableFlags::ACCESSED == 32,
        PageTableFlags::DIRTY == 64,
        PageTableFlags::HUGE == 128,
        PageTableFlags::GLOBAL == 256,
        PageTableFlags::NO_EXEC == 0x8000_0000_0000_0000,
        PageMappingFlags::NONE == 0,
        PageMappingFlags::READ == 1,
        PageMappingFlags::WRITE == 2,
        PageMappingFlags::EXEC == 4,
        PageMappingFlags::USER == 8,
        PageMappingFlags::EXACT_SIZE == 16,
        SMemFlags::NONE == 0,
        SMemFlags::READ == 1,
        SMemFlags::WRITE == 2,
        SMemFlags::EXEC == 4,
{
    lemma_flag_numbers();
}

/// Flags contain others where every bit of the others is set.
pub proof fn lemma_contained_flags(
    entry: PageTableFlags,
    mapping: PageMappingFlags,
    shared: SMemFlags,
    wanted: u64,
    shared_wanted: u8,
    in_entry: bool,
    in_mapping: bool,
    in_shared: bool,
)
    requires
        call_ensures(PageTableFlags::contains, (&entry, wanted), in_entry),
        call_ensures(PageMappingFlags::contains, (&mapping, wanted), in_mapping),
        call_ensures(SMemFlags::contains, (&shared, shared_wanted), in_shared),
    ensures
        in_entry <==> entry.bits & wanted == wanted,
        in_mapping <==> mapping.bits & wanted == wanted,
        in_shared <==> shared.bits as u64 & shared_wanted as u64 == shared_wanted as u64,
{
}

/// An entry is present where its lowest bit is set. Memory may be accessed where it may be
/// read, written or executed.
pub proof fn lemma_accessible_flags(
    entry: PageTableFlags,
    mapping: PageMappingFlags,
    shared: SMemFlags,
    present: bool,
    may_map: bool,
    may_share: bool,
)
    requires
        call_ensures(PageTableFlags::present, (&entry,), present),
        call_ensures(PageMappingFlags::accessible, (&mapping,), may_map),
        call_ensures(SMemFlags::accessible, (&shared,), may_share),
    ensures
        present <==> entry.bits & 1 != 0,
        may_map <==> mapping.bits & 1 != 0 || mapping.bits & 2 != 0 || mapping.bits & 4 != 0,
        may_share <==> shared.bits as u64 & 1 != 0 || shared.bits as u64 & 2 != 0
            || shared.bits as u64 & 4 != 0,
{
    lemma_flag_numbers();
    flags::lemma_low_bits(entry.bits);
    flags::lemma_low_bits(mapping.bits);
    flags::lemma_low_bits(shared.bits as u64);
}

/// Of some bits, those that are flags are kept, and no others.
pub proof fn lemma_flags_among_bits(
    bits: u64,
    shared_bits: u8,
    entry: PageTableFlags,
    mapping: PageMappingFlags,
    shared: SMemFlags,
    back: u64,
)
    requires
        call_ensures(PageTableFlags::from_bits_truncate, (bits,), entry),
        call_ensures(PageMappingFlags::from_bits_truncate, (bits,), mapping),
        call_ensures(SMemFlags::from_bits_truncate, (shared_bits,), shared),
        call_ensures(PageTableFlags::bits, (&entry,), back),
    ensures
        entry.bits == bits & 0x8000_0000_0000_01ff,
        mapping.bits == bits & 0x1f,
        shared.bits == shared_bits & 7,
        back == entry.bits,
{
}

/// Pages have 4 KiB, 512 times as much, and 512 times as much again.
pub proof fn lemma_page_sizes(page: PageSize, size: u64, n: u64, found: Option<PageSize>)
    requires
        call_ensures(PageSize::as_u64, (page,), size),
        call_ensures(PageSize::try_from_u64, (n,), found),
    ensures
        page is K4 ==> size == 4096,
        page is M2 ==> size == 512 * 4096,
        page is G1 ==> size == 512 * 512 * 4096,
        found is Some <==> n == 4096 || n == 512 * 4096 || n == 512 * 512 * 4096,
        found == Some(page) ==> n == size,
        n == size ==> found == Some(page),
{
    assert(page.bytes() == size);
    assert(PageSize::K4.bytes() == 4096);
    assert(PageSize::M2.bytes() == 512 * 4096);
    assert(PageSize::G1.bytes() == 512 * 512 * 4096);
}

/// The smaller of two pages is one of them, and no larger than either.
pub proof fn lemma_smaller_page(a: PageSize, b: PageSize, smaller: PageSize, sizes: (u64, u64, u64))
    requires
        call_ensures(PageSize::smaller, (a, b), smaller),
        call_ensures(PageSize::as_u64, (a,), sizes.0),
        call_ensures(PageSize::as_u64, (b,), sizes.1),
        call_ensures(PageSize::as_u64, (smaller,), sizes.2),
    ensures
        smaller == a || smaller == b,
        sizes.2 <= sizes.0,
        sizes.2 <= sizes.1,
{
}

/// A number that is rounded is a multiple, and no other multiple lies between it and the
/// number.
pub proof fn lemma_rounded(n: u64, align: u64, up: u64, down: u64)
    requires
        align > 0,
        n + align - 1 <= u64::MAX,
        call_ensures(align_up, (n, align), up),
        call_ensures(align_down, (n, align), down),
    ensures
        up % align == 0,
        n <= up < n + align,
        down % align == 0,
        n - align < down <= n,
{
}

/// The page size that a number is rounded down to is the largest that is no larger than the
/// number. Below the smallest page it is zero.
pub proof fn lemma_rounded_to_page_size(n: u64, size: u64)
    requires
        call_ensures(align_down_to_page_size, (n,), size),
    ensures
        size == 0 || size == 4096 || size == 512 * 4096 || size == 512 * 512 * 4096,
        size <= n,
        n >= 4096 ==> size >= 4096,
        n >= 512 * 4096 ==> size >= 512 * 4096,
        n >= 512 * 512 * 4096 ==> size >= 512 * 512 * 4096,
{
}

/// The bits of a number are the number that is left where the lower bits are cut off and the
/// higher bits are left out.
pub proof fn lemma_bits_of_number(n: u64, low: u64, high: u64, bits: u64)
    requires
        low < high <= 64,
        high - low < 64,
        call_ensures(get_bits, (n, low, high), bits),
    ensures
        bits == (n as nat / power2::pow2(low as nat)) % power2::pow2((high - low) as nat),
{
}

/// A page can be taken off the front of a range where the range starts at a multiple of its
/// size and is at least as long, and what is taken otherwise is no smaller.
proof fn lemma_front_page(start: u64, len: u64, page: PageSize)
    ensures
        addr::take_size(start, len) == Some(page) ==> start % page.bytes() == 0 && page.bytes()
            <= len,
        start % page.bytes() == 0 && page.bytes() <= len ==> addr::take_size(start, len) is Some
            && page.bytes() <= (addr::take_size(start, len)->0).bytes(),
        addr::can_take(start, len, page) <==> start % page.bytes() == 0 && page.bytes() <= len,
{
    assert(start % 0x4000_0000 == 0 ==> start % 0x20_0000 == 0);
    assert(start % 0x20_0000 == 0 ==> start % 0x1000 == 0);
    match page {
        PageSize::K4 => {},
        PageSize::M2 => {},
        PageSize::G1 => {},
    }
}

proof fn lemma_page_within(n: u64, page: PageSize)
    ensures
        layout::page_within(n) == Some(page) ==> page.bytes() <= n,
        page.bytes() <= n ==> layout::page_within(n) is Some && page.bytes()
            <= (layout::page_within(n)->0).bytes(),
{
    match page {
        PageSize::K4 => {},
        PageSize::M2 => {},
        PageSize::G1 => {},
    }
}

/// The page that is taken off the front of a range is the largest that starts at a multiple
/// of its size and does not reach past the end.
pub proof fn lemma_largest_page(
    phys: PhysRange,
    virt: VirtRange,
    phys_page: Option<PageSize>,
    virt_page: Option<PageSize>,
    other: PageSize,
    size: u64,
)
    requires
        call_ensures(PhysRange::get_take_size, (&phys,), phys_page),
        call_ensures(VirtRange::get_take_size, (&virt,), virt_page),
        call_ensures(PageSize::as_u64, (other,), size),
    ensures
        phys_page == Some(other) ==> phys.addr % size == 0 && size <= phys.size,
        virt_page == Some(other) ==> virt.addr % size == 0 && size <= virt.size,
        phys.addr % size == 0 && size <= phys.size ==> (phys_page matches Some(page) && size
            <= page.bytes()),
        virt.addr % size == 0 && size <= virt.size ==> (virt_page matches Some(page) && size
            <= page.bytes()),
{
    lemma_front_page(phys.addr, phys.size, other);
    lemma_front_page(virt.addr, virt.size, other);
}

/// A page can be taken off the front of a range where the range starts at a multiple of its
/// size and is at least as long. The page starts where the range did; what is left starts
/// behind it, and ends where the range did.
pub proof fn lemma_taken_pages(
    phys: &mut PhysRange,
    virt: &mut VirtRange,
    page: PageSize,
    size: u64,
    phys_frame: Option<PhysFrame>,
    virt_frame: Option<VirtFrame>,
)
    requires
        old(phys).addr + old(phys).size <= u64::MAX,
        old(virt).addr + old(virt).size <= u64::MAX,
        call_ensures(PageSize::as_u64, (page,), size),
        call_ensures(PhysRange::take, (phys, page), phys_frame),
        call_ensures(VirtRange::take, (virt, page), virt_frame),
    ensures
        phys_frame is Some <==> old(phys).addr % size == 0 && size <= old(phys).size,
        virt_frame is Some <==> old(virt).addr % size == 0 && size <= old(virt).size,
        phys_frame is Some ==> {
            &&& final(phys).addr == old(phys).addr + size
            &&& final(phys).addr + final(phys).size == old(phys).addr + old(phys).size
            &&& phys_frame == Some(
                match page {
                    PageSize::K4 => PhysFrame::K4(old(phys).addr),
                    PageSize::M2 => PhysFrame::M2(old(phys).addr),
                    PageSize::G1 => PhysFrame::G1(old(phys).addr),
                },
            )
        },
        virt_frame is Some ==> {
            &&& final(virt).addr == old(virt).addr + size
            &&& final(virt).addr + final(virt).size == old(virt).addr + old(virt).size
            &&& virt_frame == Some(
                match page {
                    PageSize::K4 => VirtFrame::K4(old(virt).addr),
                    PageSize::M2 => VirtFrame::M2(old(virt).addr),
                    PageSize::G1 => VirtFrame::G1(old(virt).addr),
                },
            )
        },
        phys_frame is None ==> *final(phys) == *old(phys),
        virt_frame is None ==> *final(virt) == *old(virt),
{
    lemma_front_page(old(phys).addr, old(phys).size, page);
    lemma_front_page(old(virt).addr, old(virt).size, page);
}

/// A frame starts where it was made to start.
pub proof fn lemma_frames_start(
    start: u64,
    page: PageSize,
    phys: PhysFrame,
    virt: VirtFrame,
    phys_start: u64,
    virt_start: u64,
)
    requires
        call_ensures(PhysFrame::new, (start, page), phys),
        call_ensures(VirtFrame::new, (start, page), virt),
        call_ensures(PhysFrame::start_addr, (&phys,), phys_start),
        call_ensures(VirtFrame::start_addr, (&virt,), virt_start),
    ensures
        phys_start == start,
        virt_start == start,
        page is K4 <==> phys is K4,
        page is M2 <==> phys is M2,
        page is G1 <==> phys is G1,
        page is K4 <==> virt is K4,
        page is M2 <==> virt is M2,
        page is G1 <==> virt is G1,
{
}

/// A range holds the addresses from its start to its end, and its end is not among them. It
/// comes before another where it starts lower, or starts there too and is shorter.
pub proof fn lemma_ranges(
    range: VirtRange,
    other: VirtRange,
    a: u64,
    inside: bool,
    before: bool,
    end: u64,
)
    requires
        range.addr + range.size <= u64::MAX,
        call_ensures(VirtRange::contains, (&range, a), inside),
        call_ensures(VirtRange::is_before, (&range, &other), before),
        call_ensures(VirtRange::end_addr, (&range,), end),
    ensures
        end == range.addr + range.size,
        inside <==> range.addr <= a < end,
        before <==> range.addr < other.addr || range.addr == other.addr && range.size < other.size,
{
}

/// A range has the start and the size that it was made with.
pub proof fn lemma_new_range(
    start: u64,
    size: u64,
    phys: PhysRange,
    virt: VirtRange,
    told: (u64, u64, u64),
)
    requires
        call_ensures(PhysRange::new, (start, size), phys),
        call_ensures(VirtRange::new, (start, size), virt),
        call_ensures(PhysRange::size, (&phys,), told.0),
        call_ensures(VirtRange::addr, (&virt,), told.1),
        call_ensures(VirtRange::size, (&virt,), told.2),
    ensures
        phys.addr == start,
        told.0 == size,
        told.1 == start,
        told.2 == size,
{
}

/// The pages of a range are whole pages, hold all of the range, and are no more than that
/// takes.
pub proof fn lemma_pages_of_range(range: VirtRange, pages: VirtRange)
    requires
        range.addr + range.size + 4095 <= u64::MAX,
        call_ensures(VirtRange::aligned, (&range,), pages),
    ensures
        pages.addr % 4096 == 0,
        pages.size % 4096 == 0,
        pages.addr <= range.addr < pages.addr + 4096,
        range.addr + range.size <= pages.addr + pages.size < range.addr + range.size + 4096,
{
}

/// An allocation is seen at one address, lies at another in physical memory, and has one
/// length. It is made of whole pages where it starts and ends at whole pages.
pub proof fn lemma_allocations(mem: Allocation, seen: u64, len: u64, range: PhysRange, whole: bool)
    requires
        call_ensures(Allocation::as_u64, (&mem,), seen),
        call_ensures(Allocation::len, (&mem,), len),
        call_ensures(Allocation::as_phys_zone, (&mem,), range),
        call_ensures(Allocation::is_whole_pages, (&mem,), whole),
    ensures
        seen == mem.virt,
        len == mem.len,
        range.addr == mem.phys,
        range.size == mem.len,
        whole <==> mem.phys % 4096 == 0 && mem.len % 4096 == 0 && mem.phys + mem.len <= u64::MAX
            && mem.virt + mem.len <= u64::MAX,
{
}

/// Memory is asked for where the piece may be accessed: whole pages that hold the size, and
/// no page more than that takes.
pub proof fn lemma_requested_memory(size: u64, mapping: PageMappingFlags, request: Option<u64>)
    requires
        size + 4095 <= u64::MAX,
        call_ensures(VirtLayoutElement::alloc_request, (size, mapping), request),
    ensures
        request is Some <==> mapping.bits & 1 != 0 || mapping.bits & 2 != 0 || mapping.bits & 4
            != 0,
        request matches Some(n) ==> n % 4096 == 0 && size <= n < size + 4096,
{
    lemma_flag_numbers();
    flags::lemma_low_bits(mapping.bits);
}

/// A new piece that may be accessed is made of the memory that there is for it, and takes all
/// of that memory's size, or, where the exact size is wanted, whole pages that hold the size
/// that was asked for. One that may not be accessed has no memory.
pub proof fn lemma_new_piece(
    size: u64,
    mapping: PageMappingFlags,
    mem: Option<Allocation>,
    made: Option<VirtLayoutElement>,
    entry: PageTableFlags,
)
    requires
        size + 4095 <= u64::MAX,
        call_ensures(VirtLayoutElement::new, (size, mapping, mem), made),
        call_ensures(PageTableFlags::from_mapping_flags, (mapping,), entry),
    ensures
        mapping.bits & 7 == 0 ==> {
            &&& made matches Some(piece) && {
                &&& piece.phys_data matches VirtLayoutElementType::Empty(n) && n == piece.map_size
                &&& piece.map_size % 4096 == 0
                &&& size <= piece.map_size < size + 4096
                &&& piece.flags == entry
            }
        },
        mapping.bits & 7 != 0 ==> match mem {
            Some(m) => made matches Some(piece) && {
                &&& piece.phys_data == VirtLayoutElementType::AllocedMem(m)
                &&& mapping.bits & 16 == 0 ==> piece.map_size == m.len
                &&& mapping.bits & 16 != 0 ==> piece.map_size % 4096 == 0 && size
                    <= piece.map_size < size + 4096
                &&& piece.flags == entry
            },
            None => made is None,
        },
{
    lemma_flag_numbers();
    flags::lemma_low_bits(mapping.bits);
}

/// A piece of memory that is there already takes all of that memory's size. Where the exact
/// size is wanted it takes whole pages that hold that size, but never more than there is.
pub proof fn lemma_piece_of_memory(
    mem: Allocation,
    size: u64,
    mapping: PageMappingFlags,
    piece: VirtLayoutElement,
    entry: PageTableFlags,
)
    requires
        size + 4095 <= u64::MAX,
        call_ensures(VirtLayoutElement::from_mem, (mem, size, mapping), piece),
        call_ensures(PageTableFlags::from_mapping_flags, (mapping,), entry),
    ensures
        piece.phys_data == VirtLayoutElementType::AllocedMem(mem),
        piece.flags == entry,
        mapping.bits & 16 == 0 ==> piece.map_size == mem.len,
        mapping.bits & 16 != 0 ==> piece.map_size <= mem.len && (piece.map_size == mem.len
            || piece.map_size % 4096 == 0 && size <= piece.map_size) && piece.map_size < size
            + 4096,
{
    lemma_flag_numbers();
    flags::lemma_low_bits(mapping.bits);
}

/// A piece of memory that belongs to someone else maps all of it, and owns nothing.
pub proof fn lemma_piece_of_range(
    range: PhysRange,
    mapping: PageMappingFlags,
    piece: VirtLayoutElement,
    entry: PageTableFlags,
    mem: Option<Allocation>,
)
    requires
        call_ensures(VirtLayoutElement::from_range, (range, mapping), piece),
        call_ensures(PageTableFlags::from_mapping_flags, (mapping,), entry),
        call_ensures(VirtLayoutElement::dealloc, (&piece,), mem),
    ensures
        piece.phys_data == VirtLayoutElementType::Mem(range),
        piece.map_size == range.size,
        piece.flags == entry,
        mem is None,
{
}

/// What a piece tells of itself: how much of the address space it takes, how much memory
/// stands behind it, which memory it maps, and which memory was allocated for it.
pub proof fn lemma_what_pieces_tell(
    piece: VirtLayoutElement,
    size: u64,
    raw_size: u64,
    zone: Option<PhysRange>,
    mem: Option<Allocation>,
)
    requires
        call_ensures(VirtLayoutElement::size, (&piece,), size),
        call_ensures(VirtLayoutElement::raw_size, (&piece,), raw_size),
        call_ensures(VirtLayoutElement::as_phys_zone, (&piece,), zone),
        call_ensures(VirtLayoutElement::dealloc, (&piece,), mem),
    ensures
        size == piece.map_size,
        piece.flags.bits & 1 == 0 ==> zone is None,
        match piece.phys_data {
            VirtLayoutElementType::Mem(range) => {
                &&& raw_size == range.size
                &&& piece.flags.bits & 1 != 0 ==> zone == Some(range)
                &&& mem is None
            },
            VirtLayoutElementType::AllocedMem(m) => {
                &&& raw_size == m.len
                &&& piece.flags.bits & 1 != 0 ==> (zone matches Some(range) && range.addr == m.phys
                    && range.size == m.len)
                &&& mem == Some(m)
            },
            VirtLayoutElementType::Empty(n) => {
                &&& raw_size == n
                &&& zone is None
                &&& mem is None
            },
        },
{
    lemma_flag_numbers();
    flags::lemma_low_bits(piece.flags.bits);
}

/// The smaller of the largest page at the front of some memory and the largest page within a
/// length fits both.
proof fn lemma_both_larger(a: PageSize, b: PageSize, start: u64, len: u64, within: u64)
    requires
        addr::take_size(start, len) == Some(a),
        layout::page_within(within) == Some(b),
    ensures
        start % a.spec_smaller(b).bytes() == 0,
        a.spec_smaller(b).bytes() <= len,
        a.spec_smaller(b).bytes() <= within,
{
    assert(start % 0x4000_0000 == 0 ==> start % 0x20_0000 == 0);
    assert(start % 0x20_0000 == 0 ==> start % 0x1000 == 0);
    match (a, b) {
        (PageSize::K4, _) => {},
        (PageSize::M2, _) => {},
        (PageSize::G1, _) => {},
    }
}

/// How much stands behind a piece is the size of its memory, or of what is kept free.
pub proof fn lemma_size_behind_piece(behind: VirtLayoutElementType, size: u64)
    requires
        call_ensures(VirtLayoutElementType::size, (&behind,), size),
    ensures
        behind matches VirtLayoutElementType::Mem(range) ==> size == range.size,
        behind matches VirtLayoutElementType::AllocedMem(m) ==> size == m.len,
        behind matches VirtLayoutElementType::Empty(n) ==> size == n,
{
}

/// The largest page that can be taken off the front of a piece fits into what is to be mapped
/// of it, and where memory stands behind it, can be taken off the front of that memory. Any
/// page of which this holds is no larger.
pub proof fn lemma_largest_page_of_piece(
    piece: &mut VirtLayoutElement,
    page: Option<PageSize>,
    other: PageSize,
    size: u64,
)
    requires
        call_ensures(VirtLayoutElement::get_take_size, (piece,), page),
        call_ensures(PageSize::as_u64, (other,), size),
    ensures
        ({
            let fits = size <= old(piece).map_size && match old(piece).phys_data {
                VirtLayoutElementType::Mem(range) => range.addr % size == 0 && size <= range.size,
                VirtLayoutElementType::AllocedMem(m) => m.phys % size == 0 && size <= m.len,
                VirtLayoutElementType::Empty(n) => size <= n,
            };
            &&& page == Some(other) ==> fits
            &&& fits ==> (page matches Some(largest) && size <= largest.bytes())
        }),
        final(piece).map_size == old(piece).map_size,
        final(piece).flags == old(piece).flags,
        match old(piece).phys_data {
            VirtLayoutElementType::AllocedMem(m) => final(piece).phys_data
                == VirtLayoutElementType::Mem(PhysRange { addr: m.phys, size: m.len }),
            _ => final(piece).phys_data == old(piece).phys_data,
        },
{
    lemma_page_within(old(piece).map_size, other);
    match old(piece).phys_data {
        VirtLayoutElementType::Mem(range) => {
            lemma_front_page(range.addr, range.size, other);
            if page == Some(other) {
                lemma_both_larger(
                    addr::take_size(range.addr, range.size)->0,
                    layout::page_within(old(piece).map_size)->0,
                    range.addr,
                    range.size,
                    old(piece).map_size,
                );
            }
        },
        VirtLayoutElementType::AllocedMem(m) => {
            lemma_front_page(m.phys, m.len, other);
            if page == Some(other) {
                lemma_both_larger(
                    addr::take_size(m.phys, m.len)->0,
                    layout::page_within(old(piece).map_size)->0,
                    m.phys,
                    m.len,
                    old(piece).map_size,
                );
            }
        },
        VirtLayoutElementType::Empty(n) => {
            lemma_page_within(n, other);
        },
    }
}

/// A page that is taken off the front of a piece starts where the memory of the piece does,
/// and has the flags of the piece. What is left is shorter by the page.
pub proof fn lemma_page_of_piece(
    piece: &mut VirtLayoutElement,
    page: PageSize,
    size: u64,
    taken: Option<(PhysFrame, PageTableFlags)>,
    start: u64,
)
    requires
        call_ensures(VirtLayoutElement::take, (piece, page), taken),
        call_ensures(PageSize::as_u64, (page,), size),
        taken matches Some(t) ==> call_ensures(PhysFrame::start_addr, (&t.0,), start),
        old(piece).phys_data matches VirtLayoutElementType::Mem(range) ==> range.addr + range.size
            <= u64::MAX,
        old(piece).phys_data matches VirtLayoutElementType::AllocedMem(m) ==> m.phys + m.len
            <= u64::MAX,
        size <= old(piece).map_size,
    ensures
        taken is Some <==> match old(piece).phys_data {
            VirtLayoutElementType::Mem(range) => range.addr % size == 0 && size <= range.size,
            VirtLayoutElementType::AllocedMem(m) => m.phys % size == 0 && size <= m.len,
            VirtLayoutElementType::Empty(n) => size <= n,
        },
        taken is None ==> *final(piece) == *old(piece),
        taken matches Some(t) ==> {
            &&& final(piece).map_size == old(piece).map_size - size
            &&& final(piece).flags == old(piece).flags
            &&& match old(piece).phys_data {
                VirtLayoutElementType::Mem(range) => {
                    &&& start == range.addr
                    &&& t.1 == old(piece).flags
                    &&& final(piece).phys_data matches VirtLayoutElementType::Mem(rest)
                        && rest.addr == range.addr + size && rest.size == range.size - size
                },
                VirtLayoutElementType::AllocedMem(m) => {
                    &&& start == m.phys
                    &&& t.1 == old(piece).flags
                    &&& final(piece).phys_data matches VirtLayoutElementType::Mem(rest)
                        && rest.addr == m.phys + size && rest.size == m.len - size
                },
                VirtLayoutElementType::Empty(n) => {
                    &&& start == 0
                    &&& t.1.bits == 0
                    &&& final(piece).phys_data matches VirtLayoutElementType::Empty(rest) && rest
                        == n - size
                },
            }
        },
{
    match old(piece).phys_data {
        VirtLayoutElementType::Mem(range) => {
            lemma_front_page(range.addr, range.size, page);
        },
        VirtLayoutElementType::AllocedMem(m) => {
            lemma_front_page(m.phys, m.len, page);
        },
        VirtLayoutElementType::Empty(_) => {},
    }
}

/// A layout takes as much of the address space as its pieces take together.
pub proof fn lemma_size_of_layout(phys_zones: VirtLayout, size: u64, clean: u64)
    requires
        call_ensures(VirtLayout::size, (&phys_zones,), size),
        call_ensures(VirtLayout::old_clean_size, (&phys_zones,), clean),
    ensures
        size == phys_zones.data@.fold_left(
            0int,
            |sum: int, piece: VirtLayoutElement| sum + piece.map_size,
        ),
        clean == phys_zones.clean_size,
{
    layout::lemma_total_is_sum(phys_zones.data@);
}

/// A new layout holds the pieces that it was made of, none of which is mapped.
pub proof fn lemma_new_layouts(
    empty: VirtLayout,
    pieces: Vec<VirtLayoutElement>,
    own: VirtLayout,
    tried: Option<VirtLayout>,
    alloc_type: AllocType,
    typed: VirtLayout,
)
    requires
        call_ensures(VirtLayout::new, (), empty),
        call_ensures(VirtLayout::from, (pieces,), own),
        call_ensures(VirtLayout::try_from, (pieces,), tried),
        call_ensures(VirtLayout::from_typed, (pieces, alloc_type), typed),
    ensures
        empty.data@.len() == 0,
        own.data@ == pieces@,
        typed.data@ == pieces@,
        tried is Some <==> pieces@.len() > 0,
        tried matches Some(l) ==> l.data@ == pieces@ && l.alloc_type is VirtMem && l.dirty_index
            == 0 && l.clean_size == 0 && l.dealloc_que@.len() == 0,
        empty.alloc_type is VirtMem,
        own.alloc_type is VirtMem,
        typed.alloc_type == alloc_type,
        empty.dirty_index == 0 && own.dirty_index == 0 && typed.dirty_index == 0,
        empty.clean_size == 0 && own.clean_size == 0 && typed.clean_size == 0,
        empty.dealloc_que@.len() == 0,
        own.dealloc_que@.len() == 0,
        typed.dealloc_que@.len() == 0,
{
}

/// A piece is added at the end of a layout, and not mapped.
pub proof fn lemma_pushed_piece(phys_zones: &mut VirtLayout, piece: VirtLayoutElement)
    requires
        call_ensures(VirtLayout::push, (phys_zones, piece), ()),
    ensures
        final(phys_zones).data@ == old(phys_zones).data@.push(piece),
        final(phys_zones).dealloc_que@ == old(phys_zones).dealloc_que@,
        final(phys_zones).dirty_index == old(phys_zones).dirty_index,
        final(phys_zones).clean_size == old(phys_zones).clean_size,
        final(phys_zones).alloc_type == old(phys_zones).alloc_type,
{
}

/// The last piece leaves a layout. Where it is mapped it waits to be given back, and where it
/// is not it does not. What is mapped stays mapped.
pub proof fn lemma_deleted_piece(phys_zones: &mut VirtLayout)
    requires
        old(phys_zones).dirty_index <= old(phys_zones).data@.len(),
        call_ensures(VirtLayout::pop_delete, (phys_zones,), ()),
    ensures
        final(phys_zones).clean_size == old(phys_zones).clean_size,
        final(phys_zones).alloc_type == old(phys_zones).alloc_type,
        final(phys_zones).data@ == if old(phys_zones).data@.len() > 0 {
            old(phys_zones).data@.drop_last()
        } else {
            old(phys_zones).data@
        },
        old(phys_zones).data@.len() > 0 && old(phys_zones).dirty_index == old(
            phys_zones,
        ).data@.len() ==> {
            &&& final(phys_zones).dealloc_que@ == old(phys_zones).dealloc_que@.push(
                old(phys_zones).data@.last(),
            )
            &&& final(phys_zones).dirty_index == old(phys_zones).dirty_index - 1
        },
        old(phys_zones).data@.len() == 0 || old(phys_zones).dirty_index < old(
            phys_zones,
        ).data@.len() ==> {
            &&& final(phys_zones).dealloc_que@ == old(phys_zones).dealloc_que@
            &&& final(phys_zones).dirty_index == old(phys_zones).dirty_index
        },
{
}

/// The pieces that are mapped and those that are not make up a layout.
pub proof fn lemma_clean_and_dirty(
    phys_zones: VirtLayout,
    clean: &[VirtLayoutElement],
    dirty: &[VirtLayoutElement],
)
    requires
        phys_zones.dirty_index <= phys_zones.data@.len(),
        call_ensures(VirtLayout::clean_slice, (&phys_zones,), clean),
        call_ensures(VirtLayout::dirty_slice, (&phys_zones,), dirty),
    ensures
        clean@ + dirty@ == phys_zones.data@,
        clean@.len() == phys_zones.dirty_index,
{
    assert(clean@ + dirty@ =~= phys_zones.data@);
}

/// A layout hands back the memory that was allocated for its pieces, in their order, and then
/// for those that wait to be given back: each allocation as often as it stands there, and
/// nothing else.
pub proof fn lemma_memory_of_layout(phys_zones: VirtLayout, mem: Vec<Allocation>, m: Allocation)
    requires
        call_ensures(VirtLayout::dealloc, (&phys_zones,), mem),
    ensures
        mem@.to_multiset().count(m) == Set::new(
            |j: int|
                0 <= j < phys_zones.data@.len() && phys_zones.data@[j].phys_data
                    == VirtLayoutElementType::AllocedMem(m),
        ).len() + Set::new(
            |j: int|
                0 <= j < phys_zones.dealloc_que@.len() && phys_zones.dealloc_que@[j].phys_data
                    == VirtLayoutElementType::AllocedMem(m),
        ).len(),
        mem@ == phys_zones.data@.filter(
            |piece: VirtLayoutElement| piece.phys_data is AllocedMem,
        ).map_values(|piece: VirtLayoutElement| piece.phys_data->AllocedMem_0)
            + phys_zones.dealloc_que@.filter(
            |piece: VirtLayoutElement| piece.phys_data is AllocedMem,
        ).map_values(|piece: VirtLayoutElement| piece.phys_data->AllocedMem_0),
{
    layout::lemma_owned_in_order(phys_zones.data@);
    layout::lemma_owned_in_order(phys_zones.dealloc_que@);
    layout::lemma_owned_as_often_as_it_stands(phys_zones.data@, m);
    layout::lemma_owned_as_often_as_it_stands(phys_zones.dealloc_que@, m);
    vstd::seq_lib::lemma_multiset_commutative(
        layout::owned_by(phys_zones.data@),
        layout::owned_by(phys_zones.dealloc_que@),
    );
}

/// A layout that is synced counts all of its pieces as mapped, and hands back the memory that
/// was allocated for the pieces that waited: each allocation as often as it stood there, and
/// nothing else.
pub proof fn lemma_synced_layout(
    phys_zones: &mut VirtLayout,
    mem: Vec<Allocation>,
    m: Allocation,
)
    requires
        call_ensures(VirtLayout::sync_mem, (phys_zones,), mem),
    ensures
        mem@.to_multiset().count(m) == Set::new(
            |j: int|
                0 <= j < old(phys_zones).dealloc_que@.len() && old(
                    phys_zones,
                ).dealloc_que@[j].phys_data == VirtLayoutElementType::AllocedMem(m),
        ).len(),
        mem@ == old(phys_zones).dealloc_que@.filter(
            |piece: VirtLayoutElement| piece.phys_data is AllocedMem,
        ).map_values(|piece: VirtLayoutElement| piece.phys_data->AllocedMem_0),
        final(phys_zones).data@ == old(phys_zones).data@,
        final(phys_zones).dealloc_que@.len() == 0,
        final(phys_zones).dirty_index == old(phys_zones).data@.len(),
        final(phys_zones).clean_size == old(phys_zones).data@.fold_left(
            0int,
            |sum: int, piece: VirtLayoutElement| sum + piece.map_size,
        ),
        final(phys_zones).alloc_type == old(phys_zones).alloc_type,
{
    layout::lemma_owned_as_often_as_it_stands(old(phys_zones).dealloc_que@, m);
    layout::lemma_owned_in_order(old(phys_zones).dealloc_que@);
    layout::lemma_total_is_sum(old(phys_zones).data@);
}

/// A layout that is touched keeps its pieces, and counts none of them as mapped.
pub proof fn lemma_touched_layout(phys_zones: &mut VirtLayout)
    requires
        call_ensures(VirtLayout::touch, (phys_zones,), ()),
    ensures
        final(phys_zones).data@ == old(phys_zones).data@,
        final(phys_zones).dealloc_que@ == old(phys_zones).dealloc_que@,
        final(phys_zones).alloc_type == old(phys_zones).alloc_type,
        final(phys_zones).dirty_index == 0,
        final(phys_zones).clean_size == 0,
{
}

} // verus!
