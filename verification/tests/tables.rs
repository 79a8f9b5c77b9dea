use kernel_mem::mem::addr::{Allocation, PhysFrame, PhysRange, VirtFrame, VirtRange};
use kernel_mem::mem::flags::{PageMappingFlags, PageTableFlags};
use kernel_mem::mem::layout::{VirtLayout, VirtLayoutElement};
use kernel_mem::mem::mapping::{PageMappingAction, PageMappingIterator, Pmit};
use kernel_mem::mem::page_table::{
    FrameAllocator, PageMemory, PageTable, PageTablePointer, ENTRIES,
};
use kernel_mem::mem::walk;

const OFFSET: u64 = 0xffff_8000_0000_0000;

struct Frames {
    next: u64,
    returned: Vec<Allocation>,
}

impl FrameAllocator for Frames {
    fn alloc_frame(&mut self) -> Allocation {
        let phys = self.next;
        self.next += 0x1000;
        Allocation { virt: OFFSET + phys, phys, len: 0x1000 }
    }

    fn dealloc_frame(&mut self, frame: Allocation) {
        self.returned.push(frame);
    }
}

fn frames() -> Frames {
    Frames { next: 0x1000, returned: Vec::new() }
}

fn none() -> PageTableFlags {
    PageTableFlags { bits: PageTableFlags::NONE }
}

fn read() -> PageMappingFlags {
    PageMappingFlags::from_bits_truncate(PageMappingFlags::READ)
}

#[test]
fn entries_hold_address_and_flags() {
    let flags = PageTableFlags { bits: PageTableFlags::PRESENT | PageTableFlags::USER };
    let mut pointer = PageTablePointer::new(0x7000, flags);
    assert_eq!(pointer, PageTablePointer(0x7005));
    assert_eq!(pointer.flags(), flags);
    pointer.set_flags(none());
    assert_eq!(pointer, PageTablePointer(0x7000));
    assert!(pointer.as_ref(&PageMemory::new()).is_none());
}

#[test]
fn new_tables_are_blank() {
    let mut mem = PageMemory::new();
    let mut allocer = frames();
    let root = PageTable::new(&mut mem, &mut allocer, none(), false);
    assert_eq!(root, PageTablePointer(0x1001));
    let table = root.as_ref(&mem).unwrap();
    assert_eq!(table.count(), 1);
    assert_eq!(table.addr(), OFFSET + 0x1000);
    assert!(!table.present(0));
    let child = PageTable::new(&mut mem, &mut allocer, none(), true);
    assert_eq!(child.as_ref(&mem).unwrap().count(), 0);
    assert!(mem.get(0x2000).is_some());
    assert!(mem.get(0x3000).is_none());
}

#[test]
fn tables_count_their_entries() {
    let mut mem = PageMemory::new();
    let mut allocer = frames();
    let root = PageTable::new(&mut mem, &mut allocer, none(), true);
    let table = root.as_mut(&mut mem).unwrap();
    table.set(3, PageTablePointer(0x9001));
    table.set(7, PageTablePointer(0xa001));
    assert_eq!(table.count(), 2);
    assert!(table.present(3));
    assert_eq!(table.entries[7], PageTablePointer(0xa001));
    table.set_count(2047);
    assert_eq!(table.count(), 2047);
    table.inc_count(1);
    assert_eq!(table.count(), 0);
    table.inc_count(-1);
    assert_eq!(table.count(), 2047);
    // What was written through the reference is in the memory.
    assert_eq!(root.as_ref(&mem).unwrap().entries[3], PageTablePointer(0x9001));
}

#[test]
fn setting_the_first_entry_starts_the_count_over() {
    let mut mem = PageMemory::new();
    let mut allocer = frames();
    let root = PageTable::new(&mut mem, &mut allocer, none(), false);
    let table = root.as_mut(&mut mem).unwrap();
    table.set(3, PageTablePointer(0x8001));
    table.set(4, PageTablePointer(0x8001));
    assert_eq!(table.count(), 3);
    table.set(0, PageTablePointer(0x9001));
    assert_eq!(table.count(), 1);
    assert!(table.present(0));
    assert_eq!(table.entries[0].0 & 0x000f_ffff_ffff_ffff, 0x9001);
}

#[test]
fn empty_tables_are_given_back() {
    let mut mem = PageMemory::new();
    let mut allocer = frames();
    let root = PageTable::new(&mut mem, &mut allocer, none(), true);
    let table = root.as_mut(&mut mem).unwrap();
    table.set(3, PageTablePointer(0x9001));
    table.set(5, PageTablePointer(0xa001));
    assert!(!table.free_if_empty(&mut allocer));
    // An entry in use is left alone.
    assert!(!table.remove(3, &mut allocer));
    assert_eq!(table.count(), 2);
    assert!(table.present(3));
    table.clear(3);
    assert_eq!(table.count(), 1);
    assert!(!table.present(3));
    assert!(table.has_entries());
    assert_eq!(allocer.returned, vec![]);
    // An entry that is not in use is taken off the count.
    assert!(table.remove(4, &mut allocer));
    assert_eq!(table.count(), 0);
    assert!(table.present(5));
    table.clear(5);
    assert_eq!(table.count(), 2047);
    assert!(!table.has_entries());
    assert_eq!(
        allocer.returned,
        vec![Allocation { virt: OFFSET + 0x1000, phys: 0x1000, len: 0x1000 }]
    );
}

#[test]
fn tables_are_hung_up_once() {
    let mut mem = PageMemory::new();
    let mut allocer = frames();
    let root = PageTable::new(&mut mem, &mut allocer, none(), false);
    let flags = PageTableFlags { bits: PageTableFlags::WRITABLE };
    let first = PageTable::get_or_alloc(&mut mem, root, 5, &mut allocer, flags);
    let second = PageTable::get_or_alloc(&mut mem, root, 5, &mut allocer, flags);
    assert_eq!(first, PageTablePointer(0x2003));
    assert_eq!(first, second);
    assert_eq!(root.as_ref(&mem).unwrap().get(5), first);
    assert_eq!(allocer.next, 0x3000);
}

#[test]
fn indices_of_an_address() {
    assert_eq!(walk::indices(0x0000_0080_4020_1000), [1, 1, 1, 1]);
    assert_eq!(walk::indices(0xffff_ffff_ffff_ffff), [511, 511, 511, 511]);
    assert_eq!(walk::indices(0xfff), [0, 0, 0, 0]);
}

fn entry_at(mem: &PageMemory, root: PageTablePointer, path: &[usize]) -> PageTablePointer {
    let mut pointer = root;
    for index in path {
        pointer = pointer.as_ref(mem).unwrap().entries[*index];
    }
    pointer
}

#[test]
fn pages_are_mapped_below_parents() {
    let mut mem = PageMemory::new();
    let mut allocer = frames();
    let root = PageTable::new(&mut mem, &mut allocer, none(), false);
    let leaf = PageTablePointer(0x8_0001);
    assert!(walk::is_path_free(&mem, root, [1, 2, 3, 4], 4));
    walk::map_page(&mut mem, root, [1, 2, 3, 4], 4, leaf, &mut allocer);
    assert_eq!(entry_at(&mem, root, &[1]), PageTablePointer(0x2007));
    assert_eq!(entry_at(&mem, root, &[1, 2, 3, 4]), leaf);
    assert!(!walk::is_path_free(&mem, root, [1, 2, 3, 4], 4));
    assert!(walk::is_path_free(&mem, root, [1, 2, 3, 5], 4));
    // A page cannot take the place of a table.
    assert!(!walk::is_path_free(&mem, root, [1, 2, 3, 4], 3));
    let huge = PageTablePointer(0x60_0081);
    walk::map_page(&mut mem, root, [1, 2, 9, 0], 3, huge, &mut allocer);
    assert_eq!(entry_at(&mem, root, &[1, 2, 9]), huge);
    assert!(!walk::is_path_free(&mem, root, [1, 2, 9, 4], 4));
    // Each entry is counted in its table.
    let tables: [&[usize]; 4] = [&[], &[1], &[1, 2], &[1, 2, 3]];
    let counts: Vec<u64> = tables
        .iter()
        .map(|path| entry_at(&mem, root, path).as_ref(&mem).unwrap().count() as u64)
        .collect();
    assert_eq!(counts, vec![2, 1, 2, 1]);
    assert_eq!(ENTRIES, 512);
}

#[test]
fn unmapped_pages_leave_the_tables() {
    let mut mem = PageMemory::new();
    let mut allocer = frames();
    let root = PageTable::new(&mut mem, &mut allocer, none(), false);
    walk::map_page(&mut mem, root, [0, 0, 0, 0], 4, PageTablePointer(0x8_0001), &mut allocer);
    walk::map_page(&mut mem, root, [0, 0, 5, 4], 4, PageTablePointer(0x9_0001), &mut allocer);
    walk::unmap_page(&mut mem, root, [0, 0, 0, 0], 4, &mut allocer);
    // The table that held the page held nothing else.
    assert!(walk::is_path_free(&mem, root, [0, 0, 0, 0], 4));
    assert!(walk::is_path_free(&mem, root, [0, 0, 0, 0], 3));
    assert!(!walk::is_path_free(&mem, root, [0, 0, 5, 4], 4));
    assert!(mem.get(0x4000).is_none());
    assert_eq!(allocer.returned, vec![Allocation { virt: OFFSET + 0x4000, phys: 0x4000, len: 0x1000 }]);
    walk::unmap_page(&mut mem, root, [0, 0, 5, 4], 4, &mut allocer);
    let order: Vec<u64> = allocer.returned.iter().map(|frame| frame.phys).collect();
    assert_eq!(order, vec![0x4000, 0x5000, 0x3000, 0x2000]);
    // The root stays, and can be used again.
    assert!(mem.get(0x1000).is_some());
    assert!(!root.as_ref(&mem).unwrap().has_entries());
    walk::map_page(&mut mem, root, [0, 0, 5, 4], 4, PageTablePointer(0x9_0001), &mut allocer);
    assert!(!walk::is_path_free(&mem, root, [0, 0, 5, 4], 4));
}

#[test]
fn tables_in_use_are_kept_whatever_they_count() {
    let mut mem = PageMemory::new();
    let mut allocer = frames();
    let root = PageTable::new(&mut mem, &mut allocer, none(), false);
    for index in [1, 2, 0] {
        let leaf = PageTablePointer(0x8_0001 + 0x1000 * index as u64);
        walk::map_page(&mut mem, root, [0, 0, 0, index], 4, leaf, &mut allocer);
    }
    assert_eq!(entry_at(&mem, root, &[0, 0, 0]).as_ref(&mem).unwrap().count(), 1);
    walk::unmap_page(&mut mem, root, [0, 0, 0, 1], 4, &mut allocer);
    assert_eq!(allocer.returned, vec![]);
    assert!(!walk::is_path_free(&mem, root, [0, 0, 0, 2], 4));
    walk::unmap_page(&mut mem, root, [0, 0, 0, 0], 4, &mut allocer);
    assert!(!walk::is_path_free(&mem, root, [0, 0, 0, 2], 4));
    walk::unmap_page(&mut mem, root, [0, 0, 0, 2], 4, &mut allocer);
    let order: Vec<u64> = allocer.returned.iter().map(|frame| frame.phys).collect();
    assert_eq!(order, vec![0x4000, 0x3000, 0x2000]);
}

#[test]
fn all_tables_are_given_back_once() {
    let mut mem = PageMemory::new();
    let mut allocer = frames();
    let root = PageTable::new(&mut mem, &mut allocer, none(), false);
    walk::map_page(&mut mem, root, [1, 2, 3, 4], 4, PageTablePointer(0x8_0001), &mut allocer);
    walk::map_page(&mut mem, root, [1, 2, 5, 4], 4, PageTablePointer(0x9_0001), &mut allocer);
    walk::map_page(&mut mem, root, [1, 2, 9, 0], 3, PageTablePointer(0x60_0081), &mut allocer);
    PageTable::dealloc_all(&mem, root, &mut allocer);
    let order: Vec<u64> = allocer.returned.iter().map(|frame| frame.phys).collect();
    assert_eq!(order, vec![0x4000, 0x5000, 0x3000, 0x2000, 0x1000]);
    assert!(allocer.returned.iter().all(|frame| frame.len == 0x1000));
}

#[test]
fn ranges_are_taken_page_by_page() {
    let flags = PageTableFlags { bits: PageTableFlags::PRESENT };
    let mut pmit = Pmit::new(PhysRange::new(0x3000, 0x2000), VirtRange::new(0x7000, 0x2000), flags);
    assert!(pmit.present());
    assert_eq!(
        pmit.take(pmit.get_take_size().unwrap()),
        Some((PhysFrame::K4(0x3000), VirtFrame::K4(0x7000)))
    );
    assert_eq!(pmit.virt_zone, VirtRange::new(0x8000, 0x1000));
}

#[test]
fn large_pages_need_both_sides_aligned() {
    let flags = PageTableFlags { bits: PageTableFlags::PRESENT };
    let zone = PhysRange::new(0x20_0000, 0x20_0000);
    let aligned = Pmit::new(zone, VirtRange::new(0x40_0000, 0x20_0000), flags);
    assert_eq!(aligned.get_take_size(), Some(kernel_mem::mem::addr::PageSize::M2));
    let shifted = Pmit::new(zone, VirtRange::new(0x40_1000, 0x20_0000), flags);
    assert_eq!(shifted.get_take_size(), Some(kernel_mem::mem::addr::PageSize::K4));
}

#[test]
fn all_ranges_are_walked() {
    let first = VirtLayoutElement::from_range(PhysRange::new(0x3000, 0x2000), read());
    let second = VirtLayoutElement::from_range(PhysRange::new(0x9000, 0x1000), read());
    let layout = VirtLayout::from(vec![first, second]);
    let mut iter = PageMappingIterator::new(&layout, &VirtRange::new(0x7000, 0x3000));
    assert_eq!(
        iter.next(),
        Some(PageMappingAction::MapFrame(
            PhysFrame::K4(0x3000),
            VirtFrame::K4(0x7000),
            first.flags
        ))
    );
    assert_eq!(iter.next().unwrap().virt_frame(), VirtFrame::K4(0x8000));
    assert_eq!(
        iter.next(),
        Some(PageMappingAction::MapFrame(
            PhysFrame::K4(0x9000),
            VirtFrame::K4(0x9000),
            second.flags
        ))
    );
    assert_eq!(iter.next(), None);
    assert_eq!(iter.next(), None);
}

#[test]
fn pages_without_memory_start_at_zero() {
    let no_access = PageMappingFlags::from_bits_truncate(PageMappingFlags::NONE);
    let guard = VirtLayoutElement::new(0x1000, no_access, None).unwrap();
    let memory = VirtLayoutElement::from_range(PhysRange::new(0x3000, 0x1000), read());
    let layout = VirtLayout::from(vec![guard, memory]);
    let mut iter = PageMappingIterator::new(&layout, &VirtRange::new(0x7000, 0x2000));
    let first = iter.next().unwrap();
    assert_eq!(first, PageMappingAction::ReserveFrame(VirtFrame::K4(0)));
    assert_eq!(first.virt_frame(), VirtFrame::K4(0));
    assert_eq!(
        iter.next(),
        Some(PageMappingAction::MapFrame(
            PhysFrame::K4(0x3000),
            VirtFrame::K4(0x8000),
            memory.flags
        ))
    );
    assert_eq!(iter.next(), None);
}

#[test]
fn what_is_mapped_is_unmapped() {
    let first = VirtLayoutElement::from_range(PhysRange::new(0x3000, 0x1000), read());
    let mut layout = VirtLayout::from(vec![first]);
    let range = VirtRange::new(0x7000, 0x1000);
    assert_eq!(PageMappingIterator::new_unmapper(&layout, &range).next(), None);
    layout.sync_mem();
    assert_eq!(PageMappingIterator::new(&layout, &range).next(), None);
    let mut iter = PageMappingIterator::new_unmapper(&layout, &range);
    assert_eq!(iter.next(), Some(PageMappingAction::UnmapFrame(VirtFrame::K4(0x7000))));
    layout.pop_delete();
    let mut iter = PageMappingIterator::new(&layout, &range);
    assert_eq!(iter.next(), Some(PageMappingAction::UnmapFrame(VirtFrame::K4(0x7000))));
}
