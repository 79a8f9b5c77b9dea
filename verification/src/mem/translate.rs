//! What the processor makes of the page tables of an address space.
use vstd::prelude::*;
use crate::mem::addr::{PageSize, VirtFrame, VirtRange, PAGE_SIZE};
use crate::mem::flags::PageTableFlags;
use crate::mem::layout;
use crate::mem::layout::{AllocType, VirtLayoutElement};
use crate::mem::mapper;
use crate::mem::mapper::{VirtMapper, Zone};
use crate::mem::mapping;
use crate::mem::mapping::Pmit;
use crate::mem::page_table;
use crate::mem::page_table::{FrameAllocator, PageTable};
use crate::mem::walk;

verus! {

/// The end of the physical addresses that an entry can hold.
pub const PHYS_END: u64 = 0x10_0000_0000_0000;

/// The page that an address lies in: the path to its entry, and its size.
pub open spec fn page_of(pages: Map<Seq<int>, u64>, addr: u64) -> Option<(Seq<int>, PageSize)> {
    if pages.contains_key(walk::path_of(addr, 2)) {
        Some((walk::path_of(addr, 2), PageSize::G1))
    } else if pages.contains_key(walk::path_of(addr, 3)) {
        Some((walk::path_of(addr, 3), PageSize::M2))
    } else if pages.contains_key(walk::path_of(addr, 4)) {
        Some((walk::path_of(addr, 4), PageSize::K4))
    } else {
        None
    }
}

/// The physical address behind an address.
pub open spec fn translate(pages: Map<Seq<int>, u64>, addr: u64) -> Option<int> {
    match page_of(pages, addr) {
        Some((path, page)) => Some(
            page_table::entry_addr(pages[path]) + addr as int % (page.bytes() as int),
        ),
        None => None,
    }
}

/// The flags that an address is mapped with.
pub open spec fn access(pages: Map<Seq<int>, u64>, addr: u64) -> Option<u64> {
    match page_of(pages, addr) {
        Some((path, page)) => Some(pages[path] & PageTableFlags::ALL),
        None => None,
    }
}

/// The ranges of the pieces of a mapped range. Those that are not reserved map memory.
pub open spec fn pieces_of(zone: Zone) -> Seq<Pmit> {
    mapping::zones_from(zone.elements, zone.range.addr as int, true)
}

proof fn lemma_entry_bits(addr: u64, flags: u64, size_flag: u64)
    by (bit_vector)
    requires
        addr % 4096 == 0,
        addr < 0x10_0000_0000_0000,
        flags & 0x8000_0000_0000_01ff == flags,
        flags & 1 == 1,
        size_flag == 0 || size_flag == 1u64 << 7,
    ensures
        ((addr | (flags | 1 | size_flag)) & 0x800f_ffff_ffff_ffff) & 0x000f_ffff_ffff_f000 == addr,
        ((addr | (flags | 1 | size_flag)) & 0x800f_ffff_ffff_ffff) & 0x8000_0000_0000_01ff == flags
            | size_flag,
{
}

/// The walk for an address passes the entry of the page that the address lies in.
pub proof fn lemma_path_in_frame(frame: VirtFrame, a: u64)
    requires
        frame.start() % frame.page().bytes() == 0,
        frame.start() <= a < frame.end(),
    ensures
        walk::path_of(a, mapping::depth_of(frame.page())) == mapping::frame_path(frame),
        a as int % (frame.page().bytes() as int) == a - frame.start(),
{
    let size = frame.page().bytes() as int;
    let s = frame.start() as int;
    let x = a as int;
    assert(x / size == s / size && x % size == x - s) by {
        match frame.page() {
            PageSize::K4 => {},
            PageSize::M2 => {},
            PageSize::G1 => {},
        }
    }
    assert forall|k: int| 0 <= k < mapping::depth_of(frame.page()) implies walk::index_of(a, k)
        == walk::index_of(frame.start(), k) by {
        match frame.page() {
            PageSize::K4 => {
                lemma_coarser(x, s, 0x1000, 512);
                lemma_coarser(x, s, 0x1000, 0x4_0000);
                lemma_coarser(x, s, 0x1000, 0x800_0000);
            },
            PageSize::M2 => {
                lemma_coarser(x, s, 0x20_0000, 512);
                lemma_coarser(x, s, 0x20_0000, 0x4_0000);
            },
            PageSize::G1 => {
                lemma_coarser(x, s, 0x4000_0000, 512);
            },
        }
    }
    assert(walk::path_of(a, mapping::depth_of(frame.page())) =~= mapping::frame_path(frame));
}

proof fn lemma_coarser(x: int, y: int, size: int, n: int)
    requires
        x >= 0,
        y >= 0,
        size > 0,
        n > 0,
        x / size == y / size,
    ensures
        x / (size * n) == y / (size * n),
{
    vstd::arithmetic::div_mod::lemma_div_denominator(x, size, n);
    vstd::arithmetic::div_mod::lemma_div_denominator(y, size, n);
}

/// No part of the way to a table ends at a page.
proof fn lemma_way_is_no_page(tables: Map<u64, PageTable>, root: u64, path: Seq<int>, n: int)
    requires
        walk::table_at(tables, root, path) is Some,
        0 < n <= path.len() <= 3,
    ensures
        !walk::is_page(tables, root, path.take(n)),
    decreases path.len(),
{
    if n < path.len() {
        lemma_way_is_no_page(tables, root, path.drop_last(), n);
        assert(path.drop_last().take(n) =~= path.take(n));
    } else {
        assert(path.take(n) =~= path);
        let table = walk::table_at(tables, root, path.drop_last())->0;
        page_table::lemma_strip(walk::entry(tables, table, path.last()));
    }
}

/// An address that lies in a page is looked up there.
pub proof fn lemma_page_of(tables: Map<u64, PageTable>, root: u64, frame: VirtFrame, a: u64)
    requires
        frame.start() % frame.page().bytes() == 0,
        frame.start() <= a < frame.end(),
        walk::pages(tables, root).contains_key(mapping::frame_path(frame)),
    ensures
        page_of(walk::pages(tables, root), a) == Some(
            (mapping::frame_path(frame), frame.page()),
        ),
{
    lemma_path_in_frame(frame, a);
    let path = mapping::frame_path(frame);
    assert(walk::is_page(tables, root, path));
    if frame.page() != PageSize::G1 {
        lemma_way_is_no_page(tables, root, path.drop_last(), 2);
        assert(path.drop_last().take(2) =~= walk::path_of(a, 2));
    }
    if frame.page() == PageSize::K4 {
        lemma_way_is_no_page(tables, root, path.drop_last(), 3);
        assert(path.drop_last().take(3) =~= walk::path_of(a, 3));
    }
}

/// Pieces of whole pages are mapped at whole pages, with flags of theirs.
proof fn lemma_zones_whole(elements: Seq<VirtLayoutElement>, vaddr: int)
    requires
        mapping::mappable(elements),
        forall|i: int| 0 <= i < elements.len() ==> (#[trigger] elements[i]).wf(),
        0 <= vaddr,
        vaddr % (PAGE_SIZE as int) == 0,
        vaddr + layout::total(elements) <= u64::MAX,
    ensures
        layout::total(elements) % (PAGE_SIZE as int) == 0,
        forall|i: int|
            0 <= i < mapping::zones_from(elements, vaddr, true).len() ==> {
                let z = #[trigger] mapping::zones_from(elements, vaddr, true)[i];
                &&& z.wf()
                &&& z.virt_zone.addr % PAGE_SIZE == 0
                &&& z.virt_zone.size % PAGE_SIZE == 0
                &&& !z.reserved ==> z.flags.spec_present() && z.flags.valid()
                    && z.phys_zone.addr % PAGE_SIZE == 0
            },
    decreases elements.len(),
{
    if elements.len() > 0 {
        let rest = elements.drop_last();
        assert forall|k: int| 0 <= k < rest.len() implies (#[trigger] rest[k]).maps_whole() && (
        rest[k].zone() matches Some(range) ==> range.wf()) && rest[k].wf() by {
            assert(rest[k] == elements[k]);
        }
        layout::lemma_total_nonneg(rest);
        assert(elements[elements.len() - 1].wf());
        assert(elements[elements.len() - 1].maps_whole());
        lemma_zones_whole(rest, vaddr);
        let zones = mapping::zones_from(elements, vaddr, true);
        let before = mapping::zones_from(rest, vaddr, true);
        assert forall|i: int| 0 <= i < zones.len() implies {
            let z = #[trigger] zones[i];
            &&& z.wf()
            &&& z.virt_zone.addr % PAGE_SIZE == 0
            &&& z.virt_zone.size % PAGE_SIZE == 0
            &&& !z.reserved ==> z.flags.spec_present() && z.flags.valid()
                && z.phys_zone.addr % PAGE_SIZE == 0
        } by {
            if i < before.len() {
                assert(zones[i] == before[i]);
            }
        }
    }
}

/// What is done for the page of a piece that holds an address.
pub proof fn lemma_action_at(zone: Zone, max: u64, j: int, a: u64) -> (k: int)
    requires
        zone.wf(max),
        0 <= j < pieces_of(zone).len(),
        !pieces_of(zone)[j].reserved,
        pieces_of(zone)[j].virt_zone.holds(a),
    ensures
        ({
            let piece = pieces_of(zone)[j];
            let actions = mapper::actions_for(zone.elements, zone.range.addr as int, true);
            let frame = actions[k].frame();
            &&& 0 <= k < actions.len()
            &&& actions[k] is MapFrame
            &&& piece.wf()
            &&& piece.has_action(actions[k])
            &&& frame.start() <= a < frame.end()
            &&& frame.start() % frame.page().bytes() == 0
            &&& piece.flags.spec_present()
            &&& piece.flags.valid()
            &&& piece.phys_zone.addr % PAGE_SIZE == 0
        }),
{
    let pieces = pieces_of(zone);
    let piece = pieces[j];
    lemma_zones_whole(zone.elements, zone.range.addr as int);
    mapping::lemma_actions(piece);
    let l = mapping::lemma_actions_cover(piece, a);
    assert(piece.has_action(piece.actions()[l]));
    mapping::lemma_action_of(pieces, j, l)
}

/// Every address of a piece of a mapped range that maps memory leads to the byte of
/// that memory that lies as far from its start, and with the flags of the piece.
pub proof fn lemma_mapped_translates<T: FrameAllocator>(
    mapper: VirtMapper<T>,
    i: int,
    j: int,
    a: u64,
)
    requires
        mapper.wf(),
        0 <= i < mapper.zones().len(),
        0 <= j < pieces_of(mapper.zones()[i]).len(),
        !pieces_of(mapper.zones()[i])[j].reserved,
        pieces_of(mapper.zones()[i])[j].virt_zone.holds(a),
        pieces_of(mapper.zones()[i])[j].phys_zone.addr + pieces_of(
            mapper.zones()[i],
        )[j].phys_zone.size <= PHYS_END,
    ensures
        ({
            let piece = pieces_of(mapper.zones()[i])[j];
            &&& translate(mapper.pages(), a) == Some(
                piece.phys_zone.addr + (a - piece.virt_zone.addr),
            )
            &&& access(mapper.pages(), a) == Some(
                piece.flags.bits | mapper::size_flag((page_of(mapper.pages(), a)->0).1),
            )
        }),
{
    let zone = mapper.zones()[i];
    assert(zone.wf(mapper.max()));
    let piece = pieces_of(zone)[j];
    let k = lemma_action_at(zone, mapper.max(), j, a);
    let action = mapper::actions_for(zone.elements, zone.range.addr as int, true)[k];
    assert(mapper::zone_mapped(mapper.pages(), zone));
    assert(mapper::page_holds(mapper.pages(), action));
    let frame = action.frame();
    lemma_page_of(mapper.tables(), mapper.root(), frame, a);
    lemma_path_in_frame(frame, a);
    let path = mapping::frame_path(frame);
    let start = (piece.phys_zone.addr + (frame.start() - piece.virt_zone.addr)) as u64;
    assert(piece.has_action(action));
    assert(mapper.pages()[path] == page_table::strip(
        start | (piece.flags.bits | PageTableFlags::PRESENT | mapper::size_flag(frame.page())),
    ));
    lemma_offset_in_page(frame, start as int, a as int);
    lemma_entry_bits(start, piece.flags.bits, mapper::size_flag(frame.page()));
    assert(page_of(mapper.pages(), a) == Some((path, frame.page())));
}

/// How far an address lies into its page, and that a page of any size starts at a multiple
/// of the smallest size.
proof fn lemma_offset_in_page(frame: VirtFrame, start: int, a: int)
    requires
        frame.start() % frame.page().bytes() == 0,
        frame.start() <= a < frame.end(),
        start % (frame.page().bytes() as int) == 0,
    ensures
        a % (frame.page().bytes() as int) == a - frame.start(),
        start % 4096 == 0,
{
    let s = frame.start() as int;
    match frame.page() {
        PageSize::K4 => {
            assert(a % 0x1000 == a - s);
        },
        PageSize::M2 => {
            assert(a % 0x20_0000 == a - s);
            assert(start % 0x20_0000 == 0 ==> start % 4096 == 0);
        },
        PageSize::G1 => {
            assert(a % 0x4000_0000 == a - s);
            assert(start % 0x4000_0000 == 0 ==> start % 4096 == 0);
        },
    }
}

/// After a range was unmapped, the addresses at which it mapped memory lead nowhere.
pub proof fn lemma_unmapped_leads_nowhere<T: FrameAllocator>(
    before: VirtMapper<T>,
    after: VirtMapper<T>,
    i: int,
    flush_before: Seq<u64>,
    flush_after: Seq<u64>,
    j: int,
    a: u64,
)
    requires
        before.wf(),
        0 <= i < before.zones().len(),
        mapper::unmapped_from(
            before,
            after,
            before.zones()[i].range,
            flush_before,
            flush_after,
        ),
        0 <= j < pieces_of(before.zones()[i]).len(),
        !pieces_of(before.zones()[i])[j].reserved,
        pieces_of(before.zones()[i])[j].virt_zone.holds(a),
    ensures
        translate(after.pages(), a) is None,
        access(after.pages(), a) is None,
{
    let zone = before.zones()[i];
    assert(zone.wf(before.max()));
    mapper::lemma_unmap_removes_pages(before, after, i, flush_before, flush_after);
    let k = lemma_action_at(zone, before.max(), j, a);
    let frame = mapper::actions_for(zone.elements, zone.range.addr as int, true)[k].frame();
    let path = mapping::frame_path(frame);
    assert(before.pages().contains_key(path) && !after.pages().contains_key(path));
    assert(walk::is_page(before.tables(), before.root(), path));
    lemma_path_in_frame(frame, a);
    assert forall|d: int| 2 <= d <= 4 implies !after.pages().contains_key(
        #[trigger] walk::path_of(a, d),
    ) by {
        let other = walk::path_of(a, d);
        if after.pages().contains_key(other) {
            assert(after.pages().dom().contains(other));
            assert(before.pages().dom().contains(other));
            assert(walk::is_page(before.tables(), before.root(), other));
            let n = path.len() as int;
            if d < n {
                lemma_way_is_no_page(before.tables(), before.root(), path.drop_last(), d);
                assert(path.drop_last().take(d) =~= other);
            } else if n < d {
                lemma_way_is_no_page(before.tables(), before.root(), other.drop_last(), n);
                assert(other.drop_last().take(n) =~= path);
            }
        }
    }
    assert(page_of(after.pages(), a) is None);
}

/// Unmapping a range changes nothing for the addresses at which it maps no memory.
pub proof fn lemma_unmap_keeps_addresses<T: FrameAllocator>(
    before: VirtMapper<T>,
    after: VirtMapper<T>,
    i: int,
    flush_before: Seq<u64>,
    flush_after: Seq<u64>,
    a: u64,
)
    requires
        before.wf(),
        0 <= i < before.zones().len(),
        mapper::unmapped_from(
            before,
            after,
            before.zones()[i].range,
            flush_before,
            flush_after,
        ),
        mapping::is_address(a),
        forall|j: int|
            0 <= j < pieces_of(before.zones()[i]).len() ==> (
            #[trigger] pieces_of(before.zones()[i])[j]).reserved || !pieces_of(
                before.zones()[i],
            )[j].virt_zone.holds(a),
    ensures
        translate(after.pages(), a) == translate(before.pages(), a),
        access(after.pages(), a) == access(before.pages(), a),
{
    let zone = before.zones()[i];
    assert(zone.wf(before.max()));
    mapper::lemma_unmap_removes_pages(before, after, i, flush_before, flush_after);
    let actions = mapper::actions_for(zone.elements, zone.range.addr as int, true);
    assert forall|d: int| 2 <= d <= 4 implies after.pages().contains_key(
        #[trigger] walk::path_of(a, d),
    ) == before.pages().contains_key(walk::path_of(a, d)) by {
        let path = walk::path_of(a, d);
        if after.pages().contains_key(path) {
            assert(after.pages().dom().contains(path));
            assert(before.pages().dom().contains(path));
        } else if before.pages().contains_key(path) {
            let k = choose|k: int|
                0 <= k < actions.len() && (#[trigger] actions[k]) is MapFrame && path
                    == mapping::frame_path(actions[k].frame());
            lemma_page_in_piece(zone.elements, zone.range, k, a, d);
            let pieces = pieces_of(zone);
            let j = choose|j: int|
                0 <= j < pieces.len() && !(#[trigger] pieces[j]).reserved
                    && pieces[j].virt_zone.holds(a);
            assert(pieces_of(before.zones()[i])[j].reserved);
        }
    }
    assert(page_of(after.pages(), a) == page_of(before.pages(), a));
    match page_of(before.pages(), a) {
        Some((path, _)) => {
            assert(after.pages().dom().contains(path));
            assert(before.pages().dom().contains(path));
        },
        None => {},
    }
}

/// Where the walk for an address ends at a page of a layout, one of its pieces maps
/// memory at the address.
proof fn lemma_page_in_piece(
    elements: Seq<VirtLayoutElement>,
    range: VirtRange,
    k: int,
    a: u64,
    d: int,
)
    requires
        mapping::mappable(elements),
        layout::total(elements) == range.size,
        range.wf(),
        mapping::is_address(a),
        mapper::canonical(range),
        2 <= d <= 4,
        0 <= k < mapper::actions_for(elements, range.addr as int, true).len(),
        mapper::actions_for(elements, range.addr as int, true)[k] is MapFrame,
        walk::path_of(a, d) == mapping::frame_path(
            mapper::actions_for(elements, range.addr as int, true)[k].frame(),
        ),
    ensures
        exists|j: int|
            0 <= j < mapping::zones_from(elements, range.addr as int, true).len() && !(
            #[trigger] mapping::zones_from(elements, range.addr as int, true)[j]).reserved
                && mapping::zones_from(elements, range.addr as int, true)[j].virt_zone.holds(a),
{
    let pieces = mapping::zones_from(elements, range.addr as int, true);
    let action = mapper::actions_for(elements, range.addr as int, true)[k];
    mapping::lemma_zones_from(elements, range.addr as int, true);
    let j = mapping::lemma_action_from(pieces, k);
    let piece = pieces[j];
    let frame = action.frame();
    assert(walk::path_of(a, d).len() == d);
    assert(mapping::frame_path(frame).len() == mapping::depth_of(frame.page()));
    mapping::lemma_frame_of_path(frame, a);
    assert(!piece.reserved && piece.virt_zone.holds(a));
}

/// Mapping a layout changes nothing for the addresses at which it maps no memory.
pub proof fn lemma_map_keeps_addresses<T: FrameAllocator>(
    before: VirtMapper<T>,
    after: VirtMapper<T>,
    elements: Seq<VirtLayoutElement>,
    alloc_type: AllocType,
    range: VirtRange,
    flush_before: Seq<u64>,
    flush_after: Seq<u64>,
    a: u64,
)
    requires
        before.wf(),
        mapping::mappable(elements),
        layout::total(elements) == range.size,
        range.wf(),
        before.clear_at(elements, range),
        mapper::mapped_to(
            before,
            after,
            elements,
            alloc_type,
            range,
            flush_before,
            flush_after,
        ),
        mapping::is_address(a),
        forall|i: int|
            0 <= i < mapping::zones_from(elements, range.addr as int, true).len()
                ==> (#[trigger] mapping::zones_from(elements, range.addr as int, true)[i]).reserved
                || !mapping::zones_from(elements, range.addr as int, true)[i].virt_zone.holds(a),
    ensures
        translate(after.pages(), a) == translate(before.pages(), a),
        access(after.pages(), a) == access(before.pages(), a),
{
    mapper::lemma_map_keeps_pages(
        before,
        after,
        elements,
        alloc_type,
        range,
        flush_before,
        flush_after,
    );
    let actions = mapper::actions_for(elements, range.addr as int, true);
    assert forall|d: int| 2 <= d <= 4 implies after.pages().contains_key(
        #[trigger] walk::path_of(a, d),
    ) == before.pages().contains_key(walk::path_of(a, d)) by {
        let path = walk::path_of(a, d);
        if before.pages().contains_key(path) {
            assert(before.pages().dom().contains(path));
            assert(after.pages().dom().contains(path));
        } else if after.pages().contains_key(path) {
            let k = choose|k: int|
                0 <= k < actions.len() && (#[trigger] actions[k]) is MapFrame && path
                    == mapping::frame_path(actions[k].frame());
            lemma_page_in_piece(elements, range, k, a, d);
        }
    }
    assert(page_of(after.pages(), a) == page_of(before.pages(), a));
    match page_of(before.pages(), a) {
        Some((path, _)) => {
            assert(before.pages().dom().contains(path));
        },
        None => {},
    }
}

/// A page below the kernel's half that an address lies in was mapped for a range that holds
/// the address.
proof fn lemma_page_has_zone<T: FrameAllocator>(mapper: VirtMapper<T>, a: u64, d: int) -> (i: int)
    requires
        mapper.wf(),
        mapping::is_address(a),
        a < mapper::KERNEL_START,
        2 <= d <= 4,
        mapper.pages().contains_key(walk::path_of(a, d)),
    ensures
        0 <= i < mapper.zones().len(),
        mapper.zones()[i].range.holds(a),
{
    let path = walk::path_of(a, d);
    assert(path[0] == walk::index_of(a, 0));
    assert(walk::outside(path, mapper::KERNEL_INDEX as int));
    let i = choose|i: int|
        0 <= i < mapper.zones().len() && mapper::is_page_of(#[trigger] mapper.zones()[i], path);
    let zone = mapper.zones()[i];
    assert(zone.wf(mapper.max()));
    assert(mapper::canonical(zone.range));
    lemma_page_of_zone(zone, mapper.max(), a, d);
    i
}

proof fn lemma_page_of_zone(zone: Zone, max: u64, a: u64, d: int)
    requires
        zone.wf(max),
        mapper::canonical(zone.range),
        mapping::is_address(a),
        2 <= d <= 4,
        mapper::is_page_of(zone, walk::path_of(a, d)),
    ensures
        zone.range.holds(a),
{
    let path = walk::path_of(a, d);
    let actions = mapper::actions_for(zone.elements, zone.range.addr as int, true);
    let k = choose|k: int|
        0 <= k < actions.len() && (#[trigger] actions[k]) is MapFrame && path
            == mapping::frame_path(actions[k].frame());
    mapping::lemma_layout_actions(zone.elements, zone.range.addr as int, true);
    let frame = actions[k].frame();
    assert(path.len() == d);
    assert(mapping::frame_path(frame).len() == mapping::depth_of(frame.page()));
    mapping::lemma_frame_of_path(frame, a);
}

/// An address whose walk is free leads nowhere.
pub proof fn lemma_free_path_leads_nowhere(
    tables: Map<u64, PageTable>,
    root: u64,
    a: u64,
    n: int,
)
    requires
        2 <= n <= 4,
        walk::path_free(tables, root, walk::path_of(a, n)),
    ensures
        page_of(walk::pages(tables, root), a) is None,
{
    let path = walk::path_of(a, n);
    assert forall|d: int| 2 <= d <= 4 implies !walk::pages(tables, root).contains_key(
        #[trigger] walk::path_of(a, d),
    ) by {
        let p = walk::path_of(a, d);
        if d <= n {
            assert(path.take(d) =~= p);
            assert(walk::lookup(tables, root, path.take(d)) matches Some(e) ==> true);
        } else {
            assert(path.take(n) =~= path);
            assert(walk::lookup(tables, root, path.take(n)) matches Some(e)
                ==> !page_table::entry_present(e));
            match walk::table_at(tables, root, path.drop_last()) {
                Some(t) => {
                    page_table::lemma_strip(walk::entry(tables, t, path.last()));
                },
                None => {},
            }
            assert(walk::table_at(tables, root, path) is None);
            let q = walk::path_of(a, n + 1);
            assert(q.drop_last() =~= path);
            assert(walk::table_at(tables, root, q) is None);
            assert(walk::lookup(tables, root, q) is None);
            if d == n + 2 {
                assert(p.drop_last() =~= q);
                assert(walk::lookup(tables, root, p) is None);
            } else {
                assert(p =~= q);
            }
        }
    }
}

/// An address below the kernel's half that no mapped range holds leads nowhere.
pub proof fn lemma_free_address_leads_nowhere<T: FrameAllocator>(mapper: VirtMapper<T>, a: u64)
    requires
        mapper.wf(),
        mapping::is_address(a),
        a < mapper::KERNEL_START,
        forall|i: int|
            0 <= i < mapper.zones().len() ==> !(#[trigger] mapper.zones()[i]).range.holds(a),
    ensures
        translate(mapper.pages(), a) is None,
        access(mapper.pages(), a) is None,
{
    assert forall|d: int| 2 <= d <= 4 implies !mapper.pages().contains_key(
        #[trigger] walk::path_of(a, d),
    ) by {
        if mapper.pages().contains_key(walk::path_of(a, d)) {
            let i = lemma_page_has_zone(mapper, a, d);
            assert(!mapper.zones()[i].range.holds(a));
        }
    }
    assert(page_of(mapper.pages(), a) is None);
}

/// The null page is never mapped, so that the use of a null pointer is noticed.
pub proof fn lemma_null_leads_nowhere<T: FrameAllocator>(mapper: VirtMapper<T>, a: u64)
    requires
        mapper.wf(),
        a < PAGE_SIZE,
    ensures
        translate(mapper.pages(), a) is None,
{
    assert forall|i: int| 0 <= i < mapper.zones().len() implies !(
    #[trigger] mapper.zones()[i]).range.holds(a) by {
        lemma_null_not_mapped(mapper, i, a);
    }
    lemma_free_address_leads_nowhere(mapper, a);
}

/// An address lies in at most one mapped range.
pub proof fn lemma_one_zone<T: FrameAllocator>(mapper: VirtMapper<T>, i: int, j: int, a: u64)
    requires
        mapper.wf(),
        0 <= i < mapper.zones().len(),
        0 <= j < mapper.zones().len(),
        mapper.zones()[i].range.holds(a),
        mapper.zones()[j].range.holds(a),
    ensures
        i == j,
{
    if i < j {
        assert(mapper.zones()[i].range.end() <= mapper.zones()[j].range.addr);
    } else if j < i {
        assert(mapper.zones()[j].range.end() <= mapper.zones()[i].range.addr);
    }
}

/// No mapped range holds an address of the null page, or one that is not to be
/// mapped.
pub proof fn lemma_null_not_mapped<T: FrameAllocator>(mapper: VirtMapper<T>, i: int, a: u64)
    requires
        mapper.wf(),
        0 <= i < mapper.zones().len(),
        a < PAGE_SIZE || a >= mapper.max(),
    ensures
        !mapper.zones()[i].range.holds(a),
{
    assert(mapper.zones()[i].wf(mapper.max()));
}

} // verus!
