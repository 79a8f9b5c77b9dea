use kernel_mem::mem::addr::{Allocation, PhysRange, VirtRange, PAGE_SIZE};
use kernel_mem::mem::flags::{PageMappingFlags, PageTableFlags};
use kernel_mem::mem::layout::{AllocType, VirtLayout, VirtLayoutElement};
use kernel_mem::mem::mapper::{MapError, VirtMapper, KERNEL_INDEX};
use kernel_mem::mem::page_table::{FrameAllocator, PageMemory, PageTable, PageTablePointer};
use kernel_mem::mem::walk;
use std::cell::RefCell;
use std::rc::Rc;

const OFFSET: u64 = 0xffff_8000_0000_0000;
const MAX: u64 = 0x8000_0000_0000;

struct Frames {
    next: u64,
    returned: Rc<RefCell<Vec<u64>>>,
}

impl FrameAllocator for Frames {
    fn alloc_frame(&mut self) -> Allocation {
        let phys = self.next;
        self.next += 0x1000;
        Allocation { virt: OFFSET + phys, phys, len: 0x1000 }
    }

    fn dealloc_frame(&mut self, frame: Allocation) {
        self.returned.borrow_mut().push(frame.phys);
    }
}

fn kernel_half() -> (PageMemory, PageTablePointer) {
    let mut mem = PageMemory::new();
    let frame = Allocation { virt: OFFSET + 0x1000, phys: 0x1000, len: 0x1000 };
    mem.write(0x1000, PageTable { frame, entries: [PageTablePointer(0); 512] });
    (mem, PageTablePointer(0x1003))
}

fn mapper_and_log() -> (VirtMapper<Frames>, Rc<RefCell<Vec<u64>>>) {
    let (mem, higher_half) = kernel_half();
    let log = Rc::new(RefCell::new(Vec::new()));
    let frames = Frames { next: 0x2000, returned: log.clone() };
    (VirtMapper::new(frames, mem, higher_half, MAX), log)
}

fn mapper() -> VirtMapper<Frames> {
    mapper_and_log().0
}

fn rw() -> PageMappingFlags {
    PageMappingFlags::from_bits_truncate(PageMappingFlags::READ | PageMappingFlags::WRITE)
}

fn layout(phys: u64, size: u64) -> VirtLayout {
    VirtLayout::from(vec![VirtLayoutElement::from_range(PhysRange::new(phys, size), rw())])
}

fn empty(size: u64) -> VirtLayout {
    let none = PageMappingFlags::from_bits_truncate(PageMappingFlags::NONE);
    VirtLayout::from(vec![VirtLayoutElement::new(size, none, None).unwrap()])
}

/// The physical address and the flags that the processor finds for an address.
fn translate(mapper: &VirtMapper<Frames>, addr: u64) -> Option<(u64, u64)> {
    let nums = walk::indices(addr);
    let mut pointer = PageTablePointer(mapper.load());
    for depth in 0..4 {
        pointer = mapper.memory().get(pointer.0 & 0x000f_ffff_ffff_f000)?.entries[nums[depth]];
        if pointer.0 & PageTableFlags::PRESENT == 0 {
            return None;
        }
        let size: u64 = [0, 0x4000_0000, 0x20_0000, 0x1000][depth];
        if depth == 3 || pointer.flags().contains(PageTableFlags::HUGE) {
            let base = pointer.0 & 0x000f_ffff_ffff_f000;
            return Some((base + addr % size, pointer.flags().bits()));
        }
    }
    None
}

#[test]
fn new_spaces_hold_the_kernel_half() {
    let mapper = mapper();
    assert_eq!(mapper.load(), 0x2001);
    assert!(mapper.is_loaded(0x2001));
    assert!(!mapper.is_loaded(0x3001));
    let root = mapper.memory().get(0x2000).unwrap();
    assert_eq!(root.entries[KERNEL_INDEX], PageTablePointer(0x1003));
    assert_eq!(root.count(), 2);
    assert!(!root.present(1));
    assert_eq!(mapper.get_mapped_range(0x1000), None);
}

#[test]
fn layouts_are_mapped_at_the_lowest_range() {
    let mut mapper = mapper();
    let mut flush = Vec::new();
    // The null page stays free.
    assert_eq!(mapper.map(layout(0x10_0000, 0x2000), &mut flush), Ok(VirtRange::new(0x1000, 0x2000)));
    assert_eq!(flush, vec![0x1000, 0x2000]);
    assert_eq!(mapper.map(layout(0x20_0000, 0x1000), &mut flush), Ok(VirtRange::new(0x3000, 0x1000)));
    assert_eq!(flush, vec![0x1000, 0x2000, 0x3000]);
    let flags = PageTableFlags::PRESENT | PageTableFlags::WRITABLE | PageTableFlags::NO_EXEC;
    assert_eq!(translate(&mapper, 0x2abc), Some((0x10_1abc, flags)));
    assert_eq!(translate(&mapper, 0x3000), Some((0x20_0000, flags)));
    assert_eq!(translate(&mapper, 0x4000), None);
    assert_eq!(translate(&mapper, 0xfff), None);
    assert_eq!(mapper.get_mapped_range(0x2fff), Some(VirtRange::new(0x1000, 0x2000)));
    assert_eq!(mapper.get_mapped_range(0x3000), Some(VirtRange::new(0x3000, 0x1000)));
    assert_eq!(mapper.get_mapped_range(0x4000), None);
    assert_eq!(mapper.get_mapped_range(0xfff), None);
}

#[test]
fn large_pages_are_used() {
    let mut mapper = mapper();
    let mut flush = Vec::new();
    let range = VirtRange::new(0x40_0000, 0x20_1000);
    assert_eq!(mapper.map_at(layout(0x20_0000, 0x20_1000), range, &mut flush), Ok(range));
    assert_eq!(flush, vec![0x40_0000, 0x60_0000]);
    let flags = PageTableFlags::PRESENT | PageTableFlags::WRITABLE | PageTableFlags::NO_EXEC;
    assert_eq!(
        translate(&mapper, 0x5f_ffff),
        Some((0x3f_ffff, flags | PageTableFlags::HUGE))
    );
    assert_eq!(translate(&mapper, 0x60_0fff), Some((0x40_0fff, flags)));
}

#[test]
fn ranges_that_do_not_fit_are_refused() {
    let mut mapper = mapper();
    let mut flush = Vec::new();
    assert_eq!(mapper.map(VirtLayout::new(), &mut flush), Err(MapError::ZeroSize));
    assert_eq!(mapper.map(empty(MAX), &mut flush), Err(MapError::NoSpace));
    let range = VirtRange::new(0x5000, 0x2000);
    assert_eq!(
        mapper.map_at(layout(0x10_0000, 0x1000), range, &mut flush),
        Err(MapError::SizeMismatch)
    );
    assert_eq!(
        mapper.map_at(VirtLayout::new(), VirtRange::new(0x5000, 0), &mut flush),
        Err(MapError::ZeroSize)
    );
    assert_eq!(
        mapper.map_at(layout(0x10_0000, 0x1000), VirtRange::new(0, 0x1000), &mut flush),
        Err(MapError::InvalidZone)
    );
    assert_eq!(
        mapper.map_at(layout(0x10_0000, 0x1000), VirtRange::new(MAX, 0x1000), &mut flush),
        Err(MapError::InvalidZone)
    );
    assert_eq!(mapper.map_at(layout(0x10_0000, 0x2000), range, &mut flush), Ok(range));
    assert_eq!(
        mapper.map_at(layout(0x20_0000, 0x1000), VirtRange::new(0x6000, 0x1000), &mut flush),
        Err(MapError::InvalidZone)
    );
    assert_eq!(
        mapper.map_at(layout(0x20_0000, 0x2000), VirtRange::new(0x4000, 0x2000), &mut flush),
        Err(MapError::InvalidZone)
    );
    assert_eq!(mapper.unmap(VirtRange::new(0x5000, 0x1000), &mut flush).err(), Some(MapError::NotMapped));
    assert_eq!(flush, vec![0x5000, 0x6000]);
}

#[test]
fn errors_tell_what_happened() {
    assert_eq!(MapError::ZeroSize.message(), Some("tryed to map page of size zero"));
    assert_eq!(
        MapError::NoSpace.message(),
        Some("not enough space in virtual memory space for allocation")
    );
    assert_eq!(
        MapError::SizeMismatch.message(),
        Some("phys_zones and virt_zone size did not match")
    );
    assert_eq!(MapError::InvalidZone.message(), Some("invalid virt zone passed to map_at"));
    assert_eq!(MapError::NotMapped.message(), None);
}

#[test]
fn ranges_are_widened_to_pages() {
    let mut mapper = mapper();
    let mut flush = Vec::new();
    assert_eq!(
        mapper.map_at(layout(0x10_0000, 0x2000), VirtRange::new(0x5800, 0x1000), &mut flush),
        Ok(VirtRange::new(0x5000, 0x2000))
    );
}

#[test]
fn gaps_are_filled() {
    let mut mapper = mapper();
    let mut flush = Vec::new();
    let at = VirtRange::new(0x3000, 0x1000);
    mapper.map_at(layout(0x10_0000, 0x1000), at, &mut flush).unwrap();
    assert_eq!(mapper.find_range(0x2000), Some(VirtRange::new(0x1000, 0x2000)));
    assert_eq!(mapper.find_range(0x3000), Some(VirtRange::new(0x4000, 0x3000)));
    assert_eq!(mapper.find_range(MAX - 0x4000), Some(VirtRange::new(0x4000, MAX - 0x4000)));
    assert_eq!(mapper.find_range(MAX - 0x3fff), None);
}

#[test]
fn space_around_a_range() {
    let mut mapper = mapper();
    let mut flush = Vec::new();
    let first = VirtRange::new(0x3000, 0x1000);
    let second = VirtRange::new(0x9000, 0x1000);
    mapper.map_at(layout(0x10_0000, 0x1000), first, &mut flush).unwrap();
    mapper.map_at(layout(0x20_0000, 0x1000), second, &mut flush).unwrap();
    let between = VirtRange::new(0x5000, 0x2000);
    assert_eq!(mapper.free_space(between, None), Some((0x1000, 0x2000)));
    assert_eq!(mapper.free_space(VirtRange::new(0x2000, 0x1000), None), Some((PAGE_SIZE, 0)));
    assert_eq!(
        mapper.free_space(VirtRange::new(0xa000, 0x1000), None),
        Some((0, MAX - 0xb000))
    );
    assert_eq!(mapper.free_space(VirtRange::new(0x3800, 0x1000), None), None);
    assert_eq!(mapper.free_space(VirtRange::new(0x3000, 0x2000), Some(first)), Some((0x2000, 0x4000)));
    assert_eq!(mapper.free_space(first, None), None);
    assert_eq!(mapper.free_space(first, Some(first)), Some((0x2000, 0x5000)));
    assert_eq!(mapper.free_space(first, Some(second)), None);
    assert!(mapper.contains(first));
    assert!(!mapper.contains(between));
}

#[test]
fn space_around_a_mapped_range() {
    let mut mapper = mapper();
    let mut flush = Vec::new();
    let middle = VirtRange::new(0x4000, 0x2000);
    for range in [VirtRange::new(0x2000, 0x1000), middle, VirtRange::new(0x9000, 0x1000)] {
        mapper.map_at(layout(0x10_0000, range.size()), range, &mut flush).unwrap();
    }
    assert_eq!(mapper.free_space(middle, None), None);
    assert_eq!(mapper.free_space(middle, Some(middle)), Some((0x1000, 0x3000)));
}

#[test]
fn unmapping_hands_the_layout_back() {
    let mut mapper = mapper();
    let mut flush = Vec::new();
    let mem = Allocation { virt: OFFSET + 0x10_0000, phys: 0x10_0000, len: 0x2000 };
    let mut memory = VirtLayout::from_typed(
        vec![VirtLayoutElement::from_mem(mem, 0, rw())],
        AllocType::Protected,
    );
    let range = mapper.map(memory.clone(), &mut flush).unwrap();
    let other = mapper.map(layout(0x20_0000, 0x1000), &mut flush).unwrap();
    flush.clear();
    let back = mapper.unmap(range, &mut flush).unwrap();
    assert_eq!(flush, vec![0x1000, 0x2000]);
    assert_eq!(back.data, memory.data);
    assert_eq!(back.alloc_type, AllocType::Protected);
    assert_eq!(back.old_clean_size(), 0);
    assert_eq!(back.dealloc(), vec![mem]);
    assert!(!mapper.contains(range));
    assert!(mapper.contains(other));
    // The pages are gone, and those of the other range are not.
    assert_eq!(translate(&mapper, 0x1000), None);
    assert_eq!(translate(&mapper, 0x2fff), None);
    assert_eq!(translate(&mapper, 0x3000).unwrap().0, 0x20_0000);
    assert!(mapper.is_clear_at(&back, range));
    memory.touch();
    assert_eq!(mapper.map_at(memory, range, &mut flush), Ok(range));
    assert_eq!(translate(&mapper, 0x2fff).unwrap().0, 0x10_1fff);
}

#[test]
fn tables_that_are_not_needed_are_dropped() {
    let (mut mapper, log) = mapper_and_log();
    let mut flush = Vec::new();
    let range = mapper.map(layout(0x10_0000, 0x2000), &mut flush).unwrap();
    let other = mapper.map(layout(0x20_0000, 0x1000), &mut flush).unwrap();
    mapper.unmap(range, &mut flush).unwrap();
    assert_eq!(*log.borrow(), vec![]);
    mapper.unmap(other, &mut flush).unwrap();
    assert_eq!(*log.borrow(), vec![0x5000, 0x4000, 0x3000]);
    assert!(mapper.memory().get(0x5000).is_none());
    let root = mapper.memory().get(0x2000).unwrap();
    assert!(!root.present(0));
    assert_eq!(root.entries[KERNEL_INDEX], PageTablePointer(0x1003));
    // A large page takes the place of a table.
    let small = VirtRange::new(0x20_1000, 0x1000);
    mapper.map_at(layout(0x10_0000, 0x1000), small, &mut flush).unwrap();
    mapper.unmap(small, &mut flush).unwrap();
    let large = VirtRange::new(0x20_0000, 0x20_0000);
    assert_eq!(mapper.map_at(layout(0x40_0000, 0x20_0000), large, &mut flush), Ok(large));
    assert_eq!(translate(&mapper, 0x20_1234).unwrap().0, 0x40_1234);
}

#[test]
fn pages_without_memory_stay_empty() {
    let mut mapper = mapper();
    let mut flush = Vec::new();
    let mut guarded = empty(0x1000);
    guarded.push(VirtLayoutElement::from_range(PhysRange::new(0x20_0000, 0x1000), rw()));
    let range = VirtRange::new(0x1000, 0x2000);
    assert_eq!(mapper.map(guarded, &mut flush), Ok(range));
    assert_eq!(flush, vec![0x2000]);
    assert_eq!(translate(&mapper, 0), None);
    assert_eq!(translate(&mapper, 0x1fff), None);
    assert_eq!(translate(&mapper, 0x2000).unwrap().0, 0x20_0000);
    flush.clear();
    mapper.unmap(range, &mut flush).unwrap();
    assert_eq!(flush, vec![0x2000]);
    assert_eq!(mapper.map(empty(0x2000), &mut flush), Ok(range));
    assert_eq!(flush, vec![0x2000]);
    assert_eq!(mapper.get_mapped_range(0x1fff), Some(range));
}

#[test]
fn all_pieces_are_mapped() {
    let mut mapper = mapper();
    let mut flush = Vec::new();
    let mut both = layout(0x10_0000, 0x1000);
    both.push(VirtLayoutElement::from_range(PhysRange::new(0x20_0000, 0x1000), rw()));
    assert_eq!(mapper.map(both, &mut flush), Ok(VirtRange::new(0x1000, 0x2000)));
    assert_eq!(translate(&mapper, 0x1abc).unwrap().0, 0x10_0abc);
    assert_eq!(translate(&mapper, 0x2abc).unwrap().0, 0x20_0abc);
    assert_eq!(translate(&mapper, 0x3000), None);
    assert_eq!(flush, vec![0x1000, 0x2000]);
}

#[test]
fn spaces_give_everything_back() {
    let (mut mapper, log) = mapper_and_log();
    let mut flush = Vec::new();
    let mem = Allocation { virt: OFFSET + 0x10_0000, phys: 0x10_0000, len: 0x2000 };
    let memory = VirtLayout::from(vec![VirtLayoutElement::from_mem(mem, 0, rw())]);
    mapper.map(memory, &mut flush).unwrap();
    mapper.map(layout(0x20_0000, 0x1000), &mut flush).unwrap();
    assert_eq!(mapper.release(), vec![mem]);
    // The tables of the pages, the table of the kernel's half, and the root.
    assert_eq!(*log.borrow(), vec![0x5000, 0x4000, 0x3000, 0x1000, 0x2000]);
}

#[test]
fn frames_come_from_the_new_allocator() {
    let (mut mapper, log) = mapper_and_log();
    let mut flush = Vec::new();
    mapper.set_frame_allocator(Frames { next: 0x9000, returned: log });
    mapper.map(layout(0x20_0000, 0x1000), &mut flush).unwrap();
    assert!(mapper.memory().get(0x9000).is_some());
    assert!(mapper.memory().get(0x3000).is_none());
}

#[test]
fn tables_come_from_the_allocator() {
    let mut mapper = mapper();
    let mut flush = Vec::new();
    mapper.map(layout(0x20_0000, 0x1000), &mut flush).unwrap();
    for frame in [0x2000, 0x3000, 0x4000, 0x5000] {
        assert!(mapper.memory().get(frame).is_some());
    }
    assert!(mapper.memory().get(0x6000).is_none());
    mapper.map(layout(0x30_0000, 0x1000), &mut flush).unwrap();
    assert!(mapper.memory().get(0x6000).is_none());
}
