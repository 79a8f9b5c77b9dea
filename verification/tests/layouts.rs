use kernel_mem::mem::addr::{Allocation, PageSize, PhysFrame, PhysRange};
use kernel_mem::mem::flags::{PageMappingFlags, PageTableFlags, SMemFlags};
use kernel_mem::mem::layout::{AllocType, VirtLayout, VirtLayoutElement, VirtLayoutElementType};
use kernel_mem::mem::mapping::is_ready;

const MEM: Allocation = Allocation { virt: 0xffff_8000_0010_0000, phys: 0x10_0000, len: 0x4000 };

fn flags(bits: u64) -> PageMappingFlags {
    PageMappingFlags::from_bits_truncate(bits)
}

fn rw() -> PageMappingFlags {
    flags(PageMappingFlags::READ | PageMappingFlags::WRITE)
}

#[test]
fn entry_flags_of_mappings() {
    let none = PageTableFlags::from_mapping_flags(flags(PageMappingFlags::NONE));
    assert_eq!(none.bits(), PageTableFlags::NO_EXEC);
    assert!(!none.present());
    let all = PageTableFlags::from_mapping_flags(flags(
        PageMappingFlags::WRITE | PageMappingFlags::EXEC | PageMappingFlags::USER,
    ));
    assert_eq!(
        all.bits(),
        PageTableFlags::PRESENT | PageTableFlags::WRITABLE | PageTableFlags::USER
    );
    let read = PageTableFlags::from_mapping_flags(flags(PageMappingFlags::READ));
    assert_eq!(read.bits(), PageTableFlags::PRESENT | PageTableFlags::NO_EXEC);
    assert!(!flags(PageMappingFlags::USER | PageMappingFlags::EXACT_SIZE).accessible());
}

#[test]
fn unknown_flags_are_dropped() {
    assert_eq!(PageTableFlags::from_bits_truncate(u64::MAX).bits(), PageTableFlags::ALL);
    assert_eq!(PageMappingFlags::from_bits_truncate(u64::MAX), flags(0x1f));
    assert_eq!(SMemFlags::from_bits_truncate(0xff), SMemFlags { bits: 7 });
}

#[test]
fn shared_flags() {
    let shared = SMemFlags::from_bits_truncate(SMemFlags::READ | SMemFlags::EXEC);
    assert!(shared.accessible());
    assert!(!SMemFlags::from_bits_truncate(SMemFlags::NONE).accessible());
    assert_eq!(
        PageMappingFlags::from_shared_flags(shared),
        flags(PageMappingFlags::READ | PageMappingFlags::EXEC)
    );
}

#[test]
fn elements_ask_for_whole_pages() {
    assert_eq!(VirtLayoutElement::alloc_request(0x3001, rw()), Some(0x4000));
    assert_eq!(VirtLayoutElement::alloc_request(0x3001, flags(PageMappingFlags::USER)), None);
}

#[test]
fn new_elements() {
    let element = VirtLayoutElement::new(0x2001, rw(), Some(MEM)).unwrap();
    assert_eq!(element.size(), 0x4000);
    assert_eq!(element.as_phys_zone(), Some(PhysRange::new(0x10_0000, 0x4000)));
    let exact = VirtLayoutElement::new(
        0x2001,
        flags(PageMappingFlags::READ | PageMappingFlags::EXACT_SIZE),
        Some(MEM),
    )
    .unwrap();
    assert_eq!(exact.size(), 0x3000);
    assert_eq!(exact.raw_size(), 0x4000);
    assert_eq!(VirtLayoutElement::new(0x2001, rw(), None), None);
    let empty = VirtLayoutElement::new(1, flags(PageMappingFlags::NONE), None).unwrap();
    assert_eq!(empty.phys_data, VirtLayoutElementType::Empty(0x1000));
    assert_eq!(empty.as_phys_zone(), None);
    assert_eq!(empty.dealloc(), None);
}

#[test]
fn elements_from_memory_that_is_there() {
    let exact = flags(PageMappingFlags::READ | PageMappingFlags::EXACT_SIZE);
    assert_eq!(VirtLayoutElement::from_mem(MEM, 0x1001, exact).size(), 0x2000);
    assert_eq!(VirtLayoutElement::from_mem(MEM, 0x9000, exact).size(), 0x4000);
    assert_eq!(VirtLayoutElement::from_mem(MEM, 0x1001, rw()).size(), 0x4000);
    assert_eq!(VirtLayoutElement::from_mem(MEM, 0x1001, rw()).dealloc(), Some(MEM));
    let range = VirtLayoutElement::from_range(PhysRange::new(0x5000, 0x1000), rw());
    assert_eq!(range.size(), 0x1000);
    assert_eq!(range.dealloc(), None);
}

#[test]
fn elements_hand_out_pages() {
    let mut element = VirtLayoutElement::from_range(PhysRange::new(0x20_0000, 0x20_1000), rw());
    assert_eq!(element.get_take_size(), Some(PageSize::M2));
    let (frame, flags) = element.take(PageSize::M2).unwrap();
    assert_eq!(frame, PhysFrame::M2(0x20_0000));
    assert!(flags.present());
    assert_eq!(element.take(PageSize::M2), None);
    assert_eq!(element.size(), 0x1000);
}

#[test]
fn layouts_of_pieces() {
    let mut layout = VirtLayout::new();
    assert_eq!(layout.size(), 0);
    layout.push(VirtLayoutElement::from_range(PhysRange::new(0x5000, 0x1000), rw()));
    layout.push(VirtLayoutElement::from_mem(MEM, 0, rw()));
    assert_eq!(layout.size(), 0x5000);
    assert_eq!(layout.clean_slice().len(), 0);
    assert_eq!(layout.dirty_slice().len(), 2);
    assert_eq!(layout.dealloc(), vec![MEM]);
    assert!(is_ready(&layout));
    assert!(VirtLayout::try_from(Vec::new()).is_none());
    assert_eq!(VirtLayout::try_from(layout.data.clone()).unwrap().size(), 0x5000);
    assert_eq!(VirtLayout::from(layout.data.clone()).alloc_type, AllocType::VirtMem);
}

#[test]
fn synced_layouts_are_clean() {
    let mut layout = VirtLayout::from(vec![
        VirtLayoutElement::from_range(PhysRange::new(0x5000, 0x1000), rw()),
        VirtLayoutElement::from_mem(MEM, 0, rw()),
    ]);
    assert_eq!(layout.sync_mem(), vec![]);
    assert_eq!(layout.clean_slice().len(), 2);
    assert_eq!(layout.old_clean_size(), 0x5000);
    assert!(!is_ready(&layout));
    layout.pop_delete();
    assert_eq!(layout.old_clean_size(), 0x5000);
    assert_eq!(layout.size(), 0x1000);
    assert_eq!(layout.dealloc_que.len(), 1);
    assert_eq!(layout.sync_mem(), vec![MEM]);
    assert_eq!(layout.old_clean_size(), 0x1000);
    layout.touch();
    assert_eq!(layout.old_clean_size(), 0);
    assert_eq!(layout.dirty_slice().len(), 1);
    assert!(is_ready(&layout));
}

#[test]
fn deleted_pieces_that_were_never_mapped_are_forgotten() {
    let mut layout = VirtLayout::from(vec![VirtLayoutElement::from_mem(MEM, 0, rw())]);
    layout.pop_delete();
    assert_eq!(layout.dealloc_que.len(), 0);
    assert_eq!(layout.sync_mem(), vec![]);
    layout.pop_delete();
    assert_eq!(layout.size(), 0);
}

#[test]
fn pieces_that_map_a_part_are_not_ready() {
    let exact = flags(PageMappingFlags::READ | PageMappingFlags::EXACT_SIZE);
    let layout = VirtLayout::from(vec![VirtLayoutElement::from_mem(MEM, 0x1000, exact)]);
    assert!(!is_ready(&layout));
}
