use kernel_mem::mem::addr::{Allocation, PhysRange, VirtRange};
use kernel_mem::mem::flags::SMemFlags;
use kernel_mem::mem::layout::{AllocType, VirtLayoutElementType};
use kernel_mem::mem::shared_mem::{SMemMap, SharedMem};
use std::sync::Arc;

const MEM: Allocation = Allocation { virt: 0xffff_8000_0010_0000, phys: 0x10_0000, len: 0x4000 };

fn rw() -> SMemFlags {
    SMemFlags::from_bits_truncate(SMemFlags::READ | SMemFlags::WRITE)
}

#[test]
fn shared_memory_gets_the_next_id() {
    let mut next = 7;
    let first = SharedMem::new(Some(MEM), rw(), &mut next).unwrap();
    assert!(SharedMem::new(None, rw(), &mut next).is_none());
    let second = SharedMem::new(Some(MEM), rw(), &mut next).unwrap();
    assert_eq!((first.id(), second.id(), next), (7, 8, 9));
    assert_eq!(first.alloc_type(), AllocType::Shared(7));
    assert_eq!(second.futex().smid, 8);
}

#[test]
fn ids_start_over() {
    let mut next = usize::MAX;
    assert_eq!(SharedMem::new(Some(MEM), rw(), &mut next).unwrap().id(), usize::MAX);
    assert_eq!(next, 0);
}

#[test]
fn shared_memory_is_mapped_and_not_owned() {
    let mut next = 0;
    let smem = SharedMem::new(Some(MEM), rw(), &mut next).unwrap();
    let layout = smem.virt_layout();
    assert_eq!(layout.size(), 0x4000);
    assert_eq!(layout.alloc_type, AllocType::Shared(0));
    assert_eq!(
        layout.data[0].phys_data,
        VirtLayoutElementType::Mem(PhysRange::new(0x10_0000, 0x4000))
    );
    assert!(layout.data[0].flags.present());
    assert_eq!(layout.dealloc(), vec![]);
}

#[test]
fn processes_number_their_shared_memory() {
    let mut next = 40;
    let smem = SharedMem::new(Some(MEM), rw(), &mut next).unwrap();
    let other = SharedMem::new(Some(MEM), rw(), &mut next).unwrap();
    let mut map = SMemMap::new();
    assert!(!map.is_full());
    assert_eq!(map.insert(smem.clone()), 0);
    assert_eq!(map.insert(other), 1);
    assert_eq!(map.get(0).unwrap().smem().id(), 40);
    assert_eq!(map.get(1).unwrap().virt_mem, None);
    assert!(map.get(2).is_none());

    let range = VirtRange::new(0x1000, 0x4000);
    map.get_mut(1).unwrap().set_virt_mem(Some(range));
    assert!(map.get_mut(2).is_none());
    assert_eq!(map.get(1).unwrap().virt_mem, Some(range));
    assert_eq!(map.get(1).unwrap().virt_mem(), Some(range));
    assert_eq!(map.get(1).unwrap().smem().id(), 41);
    assert_eq!(map.get(0).unwrap().virt_mem, None);

    let entry = map.remove(0).unwrap();
    assert!(Arc::ptr_eq(&entry.into_smem(), &smem));
    assert!(map.get(0).is_none());
    assert!(map.remove(0).is_none());
    // An id is not used again.
    assert_eq!(map.insert(smem), 2);
}
