use kernel_mem::mem::addr::{
    align_down, align_down_to_page_size, align_up, get_bits, Allocation, PageSize, PhysFrame,
    PhysRange, VirtFrame, VirtRange, PAGE_SIZE,
};

#[test]
fn page_sizes_in_bytes() {
    assert_eq!(PAGE_SIZE, 4096);
    assert_eq!(PageSize::K4.as_u64(), 0x1000);
    assert_eq!(PageSize::M2.as_u64(), 0x20_0000);
    assert_eq!(PageSize::G1.as_u64(), 0x4000_0000);
    assert_eq!(PageSize::try_from_u64(0x20_0000), Some(PageSize::M2));
    assert_eq!(PageSize::try_from_u64(0x3000), None);
    assert_eq!(PageSize::M2.smaller(PageSize::G1), PageSize::M2);
}

#[test]
fn alignment() {
    assert_eq!(align_up(0x1001, 0x1000), 0x2000);
    assert_eq!(align_up(0x1000, 0x1000), 0x1000);
    assert_eq!(align_down(0x1fff, 0x1000), 0x1000);
    assert_eq!(align_down_to_page_size(0x3fff_ffff), 0x20_0000);
    assert_eq!(align_down_to_page_size(0x1fff), 0x1000);
    assert_eq!(align_down_to_page_size(0xfff), 0);
}

#[test]
fn bits_of_a_number() {
    assert_eq!(get_bits(0xabcd, 4, 12), 0xbc);
    assert_eq!(get_bits(u64::MAX, 52, 63), 2047);
}

#[test]
fn pages_are_taken_off_the_front() {
    let mut range = PhysRange::new(0x20_0000, 0x20_1000);
    assert_eq!(range.get_take_size(), Some(PageSize::M2));
    assert_eq!(range.take(PageSize::G1), None);
    assert_eq!(range.take(PageSize::M2), Some(PhysFrame::M2(0x20_0000)));
    assert_eq!(range, PhysRange::new(0x40_0000, 0x1000));
    assert_eq!(range.take(PageSize::K4), Some(PhysFrame::K4(0x40_0000)));
    assert_eq!(range.get_take_size(), None);

    let mut range = VirtRange::new(0x1f_f000, 0x20_1000);
    assert_eq!(range.take(PageSize::K4), Some(VirtFrame::K4(0x1f_f000)));
    assert_eq!(range.get_take_size(), Some(PageSize::M2));
}

#[test]
fn frames_know_their_start() {
    assert_eq!(PhysFrame::new(0x4000_0000, PageSize::G1).start_addr(), 0x4000_0000);
    assert_eq!(VirtFrame::new(0x5000, PageSize::K4).start_addr(), 0x5000);
}

#[test]
fn ranges_of_addresses() {
    let range = VirtRange::new(0x1800, 0x1000);
    assert_eq!(range.aligned(), VirtRange::new(0x1000, 0x2000));
    assert_eq!(range.end_addr(), 0x2800);
    assert!(range.contains(0x1800));
    assert!(range.contains(0x27ff));
    assert!(!range.contains(0x2800));
    assert!(range.is_before(&VirtRange::new(0x1800, 0x1001)));
    assert!(!range.is_before(&range));
}

#[test]
fn allocations() {
    let mem = Allocation { virt: 0xffff_8000_0000_3000, phys: 0x3000, len: 0x2000 };
    assert_eq!(mem.as_u64(), 0xffff_8000_0000_3000);
    assert_eq!(mem.len(), 0x2000);
    assert_eq!(mem.as_phys_zone(), PhysRange::new(0x3000, 0x2000));
    assert!(mem.is_whole_pages());
    assert!(!Allocation { virt: 0, phys: 0x3001, len: 0x1000 }.is_whole_pages());
}
