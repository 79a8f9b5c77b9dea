use kernel_mem::mem::addr::{Allocation, PhysRange, VirtRange};
use kernel_mem::mem::flags::PageMappingFlags;
use kernel_mem::mem::layout::{VirtLayout, VirtLayoutElement};
use kernel_mem::mem::mapper::{MapError, VirtMapper};
use kernel_mem::mem::page_table::{FrameAllocator, PageMemory, PageTable, PageTablePointer};
use kernel_mem::mem::space::{AddressSpace, Space, SpaceError};

struct Frames {
    next: u64,
}

impl FrameAllocator for Frames {
    fn alloc_frame(&mut self) -> Allocation {
        let phys = self.next;
        self.next += 0x1000;
        Allocation { virt: 0xffff_8000_0000_0000 + phys, phys, len: 0x1000 }
    }

    fn dealloc_frame(&mut self, _frame: Allocation) {}
}

fn space() -> AddressSpace<Frames> {
    AddressSpace::new(VirtMapper::new(
        Frames { next: 0x2000 },
        PageMemory::new(),
        PageTablePointer(0),
        0x8000_0000_0000,
    ))
}

fn layout(phys: u64, size: u64) -> VirtLayout {
    let read = PageMappingFlags::from_bits_truncate(PageMappingFlags::READ);
    VirtLayout::from(vec![VirtLayoutElement::from_range(PhysRange::new(phys, size), read)])
}

#[test]
fn a_space_is_used_through_its_lock() {
    let space = space();
    let mut flush = Vec::new();
    assert_eq!(space.load(), 0x2001);
    assert!(space.is_loaded(0x2001));
    assert!(!space.is_loaded(0x3001));
    let range = VirtRange::new(0x1000, 0x2000);
    assert_eq!(space.map(layout(0x10_0000, 0x2000), &mut flush), Ok(range));
    assert_eq!(flush, vec![0x1000, 0x2000]);
    assert_eq!(space.get_mapped_range(0x2fff), Some(range));
    assert_eq!(space.get_mapped_range(0x3000), None);
    let at = VirtRange::new(0x9000, 0x1000);
    assert_eq!(space.map_at(layout(0x20_0000, 0x1000), at, &mut flush), Ok(at));
    assert_eq!(space.unmap(range, &mut flush).unwrap().size(), 0x2000);
    assert_eq!(flush, vec![0x1000, 0x2000, 0x9000, 0x1000, 0x2000]);
    assert_eq!(space.get_mapped_range(0x1000), None);
}

#[test]
fn a_space_refuses_what_its_mapper_refuses() {
    let space = space();
    let mut flush = Vec::new();
    let refused = |e: MapError| Err(SpaceError::Refused(e));
    assert_eq!(space.map(VirtLayout::new(), &mut flush), refused(MapError::ZeroSize));
    assert_eq!(
        space.map(layout(0, 0x8000_0000_0000), &mut flush),
        refused(MapError::NoSpace)
    );
    let at = VirtRange::new(0x9000, 0x1000);
    assert_eq!(
        space.map_at(layout(0, 0x2000), at, &mut flush),
        refused(MapError::SizeMismatch)
    );
    assert_eq!(
        space.map_at(VirtLayout::new(), VirtRange::new(0x9000, 0), &mut flush),
        refused(MapError::ZeroSize)
    );
    assert_eq!(
        space.map_at(layout(0, 0x1000), VirtRange::new(0, 0x1000), &mut flush),
        refused(MapError::InvalidZone)
    );
    assert_eq!(
        space.unmap(at, &mut flush).err(),
        Some(SpaceError::Refused(MapError::NotMapped))
    );
    assert_eq!(flush, vec![]);
}

#[test]
fn pages_that_are_in_use_are_not_mapped() {
    // The first addresses below the last entry of the root belong to a page already.
    let mut mem = PageMemory::new();
    let frame = Allocation { virt: 0xffff_8000_0000_1000, phys: 0x1000, len: 0x1000 };
    let mut table = PageTable { frame, entries: [PageTablePointer(0); 512] };
    table.set(0, PageTablePointer(0x4000_0083));
    mem.write(0x1000, table);
    let half = VirtMapper::new(
        Frames { next: 0x2000 },
        mem,
        PageTablePointer(0x1003),
        0xffff_ff80_8000_0000,
    );
    let space = AddressSpace::new(half);
    let mut flush = Vec::new();
    let taken = VirtRange::new(0xffff_ff80_0000_0000, 0x1000);
    assert_eq!(
        space.map_at(layout(0x20_0000, 0x1000), taken, &mut flush),
        Err(SpaceError::InUse)
    );
    // Not every number is an address.
    let none = VirtRange::new(0x8000_0000_0000, 0x1000);
    assert_eq!(
        space.map_at(layout(0x20_0000, 0x1000), none, &mut flush),
        Err(SpaceError::InUse)
    );
    assert_eq!(flush, vec![]);
    let free = VirtRange::new(0xffff_ff80_4000_0000, 0x1000);
    assert_eq!(space.map_at(layout(0x20_0000, 0x1000), free, &mut flush), Ok(free));
}

#[test]
fn ranges_can_be_used_again() {
    let space = space();
    let mut flush = Vec::new();
    let range = space.map(layout(0x10_0000, 0x1000), &mut flush).unwrap();
    space.unmap(range, &mut flush).unwrap();
    assert_eq!(space.map(layout(0x20_0000, 0x1000), &mut flush), Ok(range));
}

#[test]
fn what_the_lock_guards_is_used_with_its_root() {
    let mapper = VirtMapper::new(
        Frames { next: 0x2000 },
        PageMemory::new(),
        PageTablePointer(0),
        0x8000_0000_0000,
    );
    let mut guarded = Space::new(mapper);
    let mut flush = Vec::new();
    let range = VirtRange::new(0x1000, 0x1000);
    let lost = Err(SpaceError::Lost);
    assert_eq!(guarded.map(0x3001, layout(0x10_0000, 0x1000), &mut flush), lost);
    assert_eq!(guarded.map_at(0x3001, layout(0x10_0000, 0x1000), range, &mut flush), lost);
    assert_eq!(guarded.map(0x2001, layout(0x10_0000, 0x1000), &mut flush), Ok(range));
    assert_eq!(guarded.get_mapped_range(0x2001, 0x1fff), Some(range));
    assert_eq!(guarded.get_mapped_range(0x3001, 0x1fff), None);
    assert_eq!(guarded.unmap(0x3001, range, &mut flush).err(), Some(SpaceError::Lost));
    assert!(guarded.take_root(0x3001).is_none());
    assert_eq!(guarded.unmap(0x2001, range, &mut flush).unwrap().size(), 0x1000);
    assert_eq!(guarded.get_mapped_range(0x2001, 0x1fff), None);
    assert_eq!(flush, vec![0x1000, 0x1000]);
    let mapper = guarded.take().unwrap();
    assert!(guarded.take_root(0x2001).is_none());
    guarded.put(mapper);
    assert!(guarded.take_root(0x2001).is_some());
}

#[test]
fn a_lock_is_held_over_several_steps() {
    let space = space();
    let mut flush = Vec::new();
    let mut guard = space.lock();
    let range = guard.map(layout(0x10_0000, 0x1000), &mut flush).unwrap();
    let at = VirtRange::new(0x9000, 0x1000);
    assert_eq!(guard.map_at(layout(0x20_0000, 0x1000), at, &mut flush), Ok(at));
    assert_eq!(guard.get_mapped_range(0x1000), Some(range));
    assert_eq!(guard.unmap(range, &mut flush).unwrap().size(), 0x1000);
    assert_eq!(guard.get_mapped_range(0x1000), None);
    let mapper = guard.take().unwrap();
    assert!(mapper.contains(at));
    guard.put(mapper);
    assert_eq!(flush, vec![0x1000, 0x9000, 0x1000]);
}

#[test]
fn a_mapper_that_is_not_put_back_is_lost() {
    let space = space();
    let mut flush = Vec::new();
    let mapper = space.lock().take().unwrap();
    assert_eq!(mapper.load(), 0x2001);
    assert!(space.lock().take().is_none());
    assert_eq!(space.get_mapped_range(0x1000), None);
    assert_eq!(space.map(layout(0x10_0000, 0x1000), &mut flush), Err(SpaceError::Lost));
    assert_eq!(
        space.unmap(VirtRange::new(0x1000, 0x1000), &mut flush).err(),
        Some(SpaceError::Lost)
    );
    space.lock().put(mapper);
    assert!(space.map(layout(0x10_0000, 0x1000), &mut flush).is_ok());
}

#[test]
fn a_mapper_of_another_space_is_not_handed_out() {
    let space = space();
    let own = space.lock().take().unwrap();
    let other = VirtMapper::new(
        Frames { next: 0x7000 },
        PageMemory::new(),
        PageTablePointer(0),
        0x8000_0000_0000,
    );
    assert_eq!(other.load(), 0x7001);
    space.lock().put(other);
    assert!(space.lock().take().is_none());
    assert_eq!(space.load(), 0x2001);
    space.lock().put(own);
    assert_eq!(space.lock().take().unwrap().load(), 0x2001);
}
