//! What holds of the calls on guarded address spaces and on shared memory, said of what goes
//! into a call and what comes out.
use vstd::prelude::*;
use std::sync::Arc;
use crate::mem::addr::{Allocation, VirtRange};
use crate::mem::flags::{PageMappingFlags, PageTableFlags, SMemFlags};
use crate::mem::layout;
use crate::mem::layout::{AllocType, VirtLayout, VirtLayoutElement, VirtLayoutElementType};
use crate::mem::mapper;
use crate::mem::mapper::{MapError, VirtMapper, Zone};
use crate::mem::page_table::FrameAllocator;
use crate::mem::shared_mem::{SMemMap, SMemMapEntry, SharedMem};
use crate::mem::space::{AddressSpace, Space, SpaceError, SpaceGuard};
use crate::sched::futex::FutexMap;

verus! {

/// New shared memory takes the next id, which its type and its futexes tell too, and the next
/// id is one more, or zero behind the last. Where there is no memory, no id is taken.
pub proof fn lemma_new_shared_memory(
    mem: Option<Allocation>,
    flags: SMemFlags,
    next: &mut usize,
    made: Option<Arc<SharedMem>>,
    shared: SharedMem,
    id: usize,
    alloc_type: AllocType,
    futex: &FutexMap,
)
    requires
        call_ensures(SharedMem::new, (mem, flags, next), made),
        made matches Some(s) ==> *s == shared,
        call_ensures(SharedMem::id, (&shared,), id),
        call_ensures(SharedMem::alloc_type, (&shared,), alloc_type),
        call_ensures(SharedMem::futex, (&shared,), futex),
    ensures
        made is Some <==> mem is Some,
        made is None ==> *final(next) == *old(next),
        made is Some ==> {
            &&& id == *old(next)
            &&& *old(next) < usize::MAX ==> *final(next) == *old(next) + 1
            &&& *old(next) == usize::MAX ==> *final(next) == 0
        },
        alloc_type == AllocType::Shared(id),
        made is Some ==> futex.smid == id,
{
    let n = *old(next);
    if n < usize::MAX {
        vstd::arithmetic::div_mod::lemma_small_mod((n + 1) as nat, (usize::MAX + 1) as nat);
    } else {
        vstd::arithmetic::div_mod::lemma_mod_self_0(usize::MAX + 1);
    }
}

/// A layout of shared memory is one piece that maps all of the memory with what the shared
/// memory allows, and does not own it. Its type tells the id of the shared memory.
pub proof fn lemma_layout_of_shared_memory(
    mem: Allocation,
    flags: SMemFlags,
    next: &mut usize,
    shared: Arc<SharedMem>,
    id: usize,
    phys_zones: VirtLayout,
    mapping: PageMappingFlags,
    entry: PageTableFlags,
)
    requires
        call_ensures(SharedMem::new, (Some(mem), flags, next), Some(shared)),
        call_ensures(SharedMem::id, (&*shared,), id),
        call_ensures(SharedMem::virt_layout, (&*shared,), phys_zones),
        call_ensures(PageMappingFlags::from_shared_flags, (flags,), mapping),
        call_ensures(PageTableFlags::from_mapping_flags, (mapping,), entry),
    ensures
        phys_zones.data@.len() == 1,
        phys_zones.data@[0].phys_data matches VirtLayoutElementType::Mem(range) && range.addr
            == mem.phys && range.size == mem.len,
        phys_zones.data@[0].map_size == mem.len,
        phys_zones.data@[0].flags == entry,
        phys_zones.alloc_type == AllocType::Shared(id),
        phys_zones.dirty_index == 0,
        phys_zones.clean_size == 0,
        phys_zones.dealloc_que@.len() == 0,
{
}

/// Shared memory that a process comes to know gets an id under which it is found, not mapped
/// yet. What is known under other ids stays.
pub proof fn lemma_known_shared_memory(
    known: &mut SMemMap,
    shared: Arc<SharedMem>,
    id: usize,
    found: Option<&SMemMapEntry>,
    smem: &Arc<SharedMem>,
    virt_mem: Option<VirtRange>,
    other: usize,
    before: Option<&SMemMapEntry>,
    after: Option<&SMemMapEntry>,
)
    requires
        call_ensures(SMemMap::insert, (known, shared), id),
        call_ensures(SMemMap::get, (&*final(known), id), found),
        found matches Some(e) ==> call_ensures(SMemMapEntry::smem, (e,), smem) && call_ensures(
            SMemMapEntry::virt_mem,
            (e,),
            virt_mem,
        ),
        call_ensures(SMemMap::get, (&*old(known), other), before),
        call_ensures(SMemMap::get, (&*final(known), other), after),
    ensures
        found is Some,
        *smem == shared,
        virt_mem is None,
        !old(known)@.contains_key(id),
        other != id ==> after == before,
{
}

/// An id is never given to two pieces of shared memory, not even where the first of them is
/// forgotten in between.
pub proof fn lemma_ids_of_shared_memory(
    first: &mut SMemMap,
    a: Arc<SharedMem>,
    id: usize,
    between: &mut SMemMap,
    forgotten: usize,
    entry: Option<SMemMapEntry>,
    second: &mut SMemMap,
    b: Arc<SharedMem>,
    next: usize,
)
    requires
        call_ensures(SMemMap::insert, (first, a), id),
        *old(between) == *final(first),
        call_ensures(SMemMap::remove, (between, forgotten), entry),
        *old(second) == *final(between),
        call_ensures(SMemMap::insert, (second, b), next),
    ensures
        next > id,
{
}

/// Shared memory that is forgotten is handed out, and no longer known. What is known under
/// other ids stays.
pub proof fn lemma_forgotten_shared_memory(
    known: &mut SMemMap,
    id: usize,
    entry: Option<SMemMapEntry>,
    other: usize,
    before: Option<&SMemMapEntry>,
    after: Option<&SMemMapEntry>,
)
    requires
        call_ensures(SMemMap::remove, (known, id), entry),
        call_ensures(SMemMap::get, (&*old(known), other), before),
        call_ensures(SMemMap::get, (&*final(known), other), after),
    ensures
        other != id ==> after == before,
        other == id ==> after is None,
        other == id ==> match before {
            Some(e) => entry == Some(*e),
            None => entry is None,
        },
{
}

/// Where shared memory is mapped is what was noted last, and noting it keeps the memory.
pub proof fn lemma_noted_shared_memory(
    entry: &mut SMemMapEntry,
    noted: Option<VirtRange>,
    virt_mem: Option<VirtRange>,
    before: &Arc<SharedMem>,
    after: &Arc<SharedMem>,
    taken: Arc<SharedMem>,
)
    requires
        call_ensures(SMemMapEntry::set_virt_mem, (entry, noted), ()),
        call_ensures(SMemMapEntry::virt_mem, (&*final(entry),), virt_mem),
        call_ensures(SMemMapEntry::smem, (&*old(entry),), before),
        call_ensures(SMemMapEntry::smem, (&*final(entry),), after),
        call_ensures(SMemMapEntry::into_smem, (*final(entry),), taken),
    ensures
        virt_mem == noted,
        *after == *before,
        taken == *before,
{
}

/// A guarded address space is handed out where it has the root table that is asked for, and
/// is then no longer there. Any other stays.
pub proof fn lemma_taken_space<T: FrameAllocator>(
    space: &mut Space<T>,
    cr3: u64,
    taken: Option<VirtMapper<T>>,
)
    requires
        call_ensures(Space::<T>::take_root, (space, cr3), taken),
    ensures
        taken is Some <==> (old(space).content() matches Some(m) && m.root_entry() == cr3),
        taken is Some ==> taken == old(space).content() && final(space).content() is None,
        taken is None ==> final(space).content() == old(space).content(),
{
}

/// Mapping in a guarded address space maps the layout at the lowest range that it fits in,
/// where the address space is there and has the root table that is asked for. Where it is not
/// or has not, a layout that has a size is refused, and nothing changes.
pub proof fn lemma_mapped_in_space<T: FrameAllocator>(
    space: &mut Space<T>,
    cr3: u64,
    phys_zones: VirtLayout,
    flush: &mut Vec<u64>,
    result: Result<VirtRange, SpaceError>,
    other: u64,
)
    requires
        call_ensures(Space::<T>::map, (space, cr3, phys_zones, flush), result),
    ensures
        ({
            let size = phys_zones.data@.fold_left(
                0int,
                |sum: int, piece: VirtLayoutElement| sum + piece.map_size,
            );
            let there = old(space).content() matches Some(m) && m.root_entry() == cr3;
            let m = old(space).content()->0;
            &&& result == Err::<VirtRange, SpaceError>(SpaceError::Refused(MapError::ZeroSize))
                <==> size == 0
            &&& size > 0 ==> (result == Err::<VirtRange, SpaceError>(SpaceError::Lost) <==> !there)
            &&& result is Err ==> final(space).content() == old(space).content() && final(flush)@
                == old(flush)@
            &&& result matches Ok(range) ==> {
                &&& there
                &&& range.size == size
                &&& range.addr >= 4096
                &&& range.addr + range.size <= m.max()
                &&& forall|i: int|
                    #![trigger m.zones()[i]]
                    0 <= i < m.zones().len() ==> m.zones()[i].range.addr + m.zones()[i].range.size
                        <= range.addr || range.addr + range.size <= m.zones()[i].range.addr
                &&& final(space).content() matches Some(after) && exists|p: int|
                    0 <= p <= m.zones().len() && after.zones() == #[trigger] m.zones().insert(
                        p,
                        Zone {
                            range,
                            elements: phys_zones.data@,
                            alloc_type: phys_zones.alloc_type,
                        },
                    )
            }
            &&& there && size > 0 && other >= 4096 && other + size <= m.max() && (forall|i: int|
                #![trigger m.zones()[i]]
                0 <= i < m.zones().len() ==> m.zones()[i].range.addr + m.zones()[i].range.size
                    <= other || other + size <= m.zones()[i].range.addr) ==> match result {
                Ok(range) => range.addr <= other,
                Err(e) => e is InUse,
            }
        }),
{
    let size = layout::total(phys_zones.data@);
    let m = old(space).content()->0;
    layout::lemma_total_is_sum(phys_zones.data@);
    layout::lemma_total_nonneg(phys_zones.data@);
    let there = old(space).content() matches Some(m) && m.root_entry() == cr3;
    if result is Ok {
        let range = result->Ok_0;
        assert forall|i: int|
            #![trigger m.zones()[i]]
            0 <= i < m.zones().len() implies m.zones()[i].range.addr + m.zones()[i].range.size
            <= range.addr || range.addr + range.size <= m.zones()[i].range.addr by {
            assert(range.disjoint(m.zones()[i].range));
        }
        let after = final(space).content()->0;
        mapper::lemma_slot(m.zones(), m.max(), range);
        assert(after.zones() == m.zones().insert(
            mapper::slot(m.zones(), range),
            Zone { range, elements: phys_zones.data@, alloc_type: phys_zones.alloc_type },
        ));
    }
    if there && size > 0 && other >= 4096 && other + size <= m.max() && (forall|i: int|
        #![trigger m.zones()[i]]
        0 <= i < m.zones().len() ==> m.zones()[i].range.addr + m.zones()[i].range.size <= other
            || other + size <= m.zones()[i].range.addr) {
        let low = VirtRange { addr: other, size: size as u64 };
        assert(mapper::fits(m.zones(), m.max(), low));
    }
}

/// Unmapping in a guarded address space takes the range out that was mapped as a whole, where
/// the address space is there and has the root table that is asked for. Otherwise nothing
/// changes.
pub proof fn lemma_unmapped_in_space<T: FrameAllocator>(
    space: &mut Space<T>,
    cr3: u64,
    range: VirtRange,
    flush: &mut Vec<u64>,
    result: Result<VirtLayout, SpaceError>,
)
    requires
        call_ensures(Space::<T>::unmap, (space, cr3, range, flush), result),
    ensures
        ({
            let there = old(space).content() matches Some(m) && m.root_entry() == cr3;
            let zones = (old(space).content()->0).zones();
            &&& result is Ok <==> there && exists|i: int|
                0 <= i < zones.len() && (#[trigger] zones[i]).range == range
            &&& result matches Ok(phys_zones) ==> {
                &&& final(space).content() matches Some(after) && exists|i: int|
                    0 <= i < zones.len() && (#[trigger] zones[i]).range == range
                        && phys_zones.data@ == zones[i].elements && phys_zones.alloc_type
                        == zones[i].alloc_type && after.zones() == zones.remove(i)
            }
            &&& result matches Err(e) ==> {
                &&& e is Lost <==> !there
                &&& there ==> e == SpaceError::Refused(MapError::NotMapped)
                &&& final(space).content() == old(space).content()
                &&& final(flush)@ == old(flush)@
            }
        }),
{
    if result is Ok {
        let zones = (old(space).content()->0).zones();
        assert(zones[mapper::slot(zones, range)].range == range);
    }
}

/// The mapped range that is found in a guarded address space holds the address, and none is
/// found where no mapped range does, or the address space is not there or has another root
/// table.
pub proof fn lemma_range_in_space<T: FrameAllocator>(
    space: Space<T>,
    cr3: u64,
    a: u64,
    found: Option<VirtRange>,
)
    requires
        call_ensures(Space::<T>::get_mapped_range, (&space, cr3, a), found),
    ensures
        ({
            let there = space.content() matches Some(m) && m.root_entry() == cr3;
            let zones = (space.content()->0).zones();
            &&& found matches Some(r) ==> there && r.addr <= a < r.addr + r.size && exists|i: int|
                0 <= i < zones.len() && (#[trigger] zones[i]).range == r
            &&& found is None && there ==> forall|i: int|
                #![trigger zones[i]]
                0 <= i < zones.len() ==> a < zones[i].range.addr || a >= zones[i].range.addr
                    + zones[i].range.size
        }),
{
    let zones = (space.content()->0).zones();
    if found is None && (space.content() matches Some(m) && m.root_entry() == cr3) {
        assert forall|i: int|
            #![trigger zones[i]]
            0 <= i < zones.len() implies a < zones[i].range.addr || a >= zones[i].range.addr
            + zones[i].range.size by {
            assert(!zones[i].range.holds(a));
        }
    }
}

/// The processor is told the entry of the root table that the address space was made with,
/// and the address space is in use where the processor holds that entry.
pub proof fn lemma_root_of_space<T: FrameAllocator>(
    mapper: VirtMapper<T>,
    space: AddressSpace<T>,
    cr3: u64,
    held: u64,
    loaded: bool,
)
    requires
        call_ensures(AddressSpace::<T>::new, (mapper,), space),
        call_ensures(AddressSpace::<T>::load, (&space,), cr3),
        call_ensures(AddressSpace::<T>::is_loaded, (&space, held), loaded),
    ensures
        cr3 == mapper.root_entry(),
        loaded <==> held == cr3,
{
}

/// Mapping at a range in a guarded address space maps the layout at the pages of the range,
/// where the address space is there and has the root table that is asked for. It is refused
/// where its size is not theirs, where it has no size, and where the pages do not lie behind
/// the null page and before the end of the address space or overlap a mapped range.
pub proof fn lemma_mapped_at_in_space<T: FrameAllocator>(
    space: &mut Space<T>,
    cr3: u64,
    phys_zones: VirtLayout,
    range: VirtRange,
    flush: &mut Vec<u64>,
    result: Result<VirtRange, SpaceError>,
    low: u64,
    high: u64,
)
    requires
        call_ensures(Space::<T>::map_at, (space, cr3, phys_zones, range, flush), result),
        range.addr + range.size + 4095 <= u64::MAX,
        low == range.addr - range.addr % 4096,
        high == (range.addr + range.size + 4095) - (range.addr + range.size + 4095) % 4096,
    ensures
        ({
            let size = phys_zones.data@.fold_left(
                0int,
                |sum: int, piece: VirtLayoutElement| sum + piece.map_size,
            );
            let there = old(space).content() matches Some(m) && m.root_entry() == cr3;
            let m = old(space).content()->0;
            let free = low >= 4096 && high <= m.max() && forall|i: int|
                #![trigger m.zones()[i]]
                0 <= i < m.zones().len() ==> m.zones()[i].range.addr + m.zones()[i].range.size
                    <= low || high <= m.zones()[i].range.addr;
            &&& result is Err ==> final(space).content() == old(space).content() && final(flush)@
                == old(flush)@
            &&& match result {
                Ok(at) => {
                    &&& there && free && size == high - low && size > 0
                    &&& at.addr == low
                    &&& at.size == size
                    &&& final(space).content() matches Some(after) && exists|p: int|
                        0 <= p <= m.zones().len() && after.zones() == #[trigger] m.zones().insert(
                            p,
                            Zone {
                                range: at,
                                elements: phys_zones.data@,
                                alloc_type: phys_zones.alloc_type,
                            },
                        )
                },
                Err(SpaceError::Refused(MapError::SizeMismatch)) => size != high - low,
                Err(SpaceError::Refused(MapError::ZeroSize)) => size == high - low && size == 0,
                Err(SpaceError::Refused(MapError::InvalidZone)) => size == high - low && size > 0
                    && there && !free,
                Err(SpaceError::InUse) => size == high - low && size > 0 && there && free,
                Err(SpaceError::Lost) => size == high - low && size > 0 && !there,
                Err(_) => false,
            }
        }),
{
    let size = layout::total(phys_zones.data@);
    let m = old(space).content()->0;
    let cover = VirtRange { addr: low, size: (high - low) as u64 };
    let there = old(space).content() matches Some(m) && m.root_entry() == cr3;
    let free = low >= 4096 && high <= m.max() && forall|i: int|
        #![trigger m.zones()[i]]
        0 <= i < m.zones().len() ==> m.zones()[i].range.addr + m.zones()[i].range.size <= low
            || high <= m.zones()[i].range.addr;
    layout::lemma_total_is_sum(phys_zones.data@);
    layout::lemma_total_nonneg(phys_zones.data@);
    assert(cover.is_page_cover(range));
    assert(mapper::fits(m.zones(), m.max(), cover) == free) by {
        if mapper::fits(m.zones(), m.max(), cover) {
            assert forall|i: int|
                #![trigger m.zones()[i]]
                0 <= i < m.zones().len() implies m.zones()[i].range.addr
                + m.zones()[i].range.size <= low || high <= m.zones()[i].range.addr by {
                assert(cover.disjoint(m.zones()[i].range));
            }
        }
    }
    if result is Ok {
        let after = final(space).content()->0;
        mapper::lemma_slot(m.zones(), m.max(), cover);
        assert(after.zones() == m.zones().insert(
            mapper::slot(m.zones(), cover),
            Zone { range: cover, elements: phys_zones.data@, alloc_type: phys_zones.alloc_type },
        ));
    }
}

/// Whatever other threads do, an address space refuses a layout without a size, a range that
/// it hands out has the size of the layout and does not hold the null page, a range that it
/// finds holds the address, and what is refused adds nothing to what the processor has to
/// forget.
pub proof fn lemma_whatever_others_do<T: FrameAllocator>(
    space: AddressSpace<T>,
    phys_zones: VirtLayout,
    flush: &mut Vec<u64>,
    result: Result<VirtRange, SpaceError>,
    a: u64,
    found: Option<VirtRange>,
    range: VirtRange,
    unflush: &mut Vec<u64>,
    unmapped: Result<VirtLayout, SpaceError>,
)
    requires
        call_ensures(AddressSpace::<T>::map, (&space, phys_zones, flush), result),
        call_ensures(AddressSpace::<T>::get_mapped_range, (&space, a), found),
        call_ensures(AddressSpace::<T>::unmap, (&space, range, unflush), unmapped),
    ensures
        ({
            let size = phys_zones.data@.fold_left(
                0int,
                |sum: int, piece: VirtLayoutElement| sum + piece.map_size,
            );
            &&& result == Err::<VirtRange, SpaceError>(SpaceError::Refused(MapError::ZeroSize))
                <==> size == 0
            &&& result matches Ok(at) ==> at.size == size && at.addr >= 4096
            &&& result is Err ==> final(flush)@ == old(flush)@
        }),
        found matches Some(r) ==> r.addr <= a < r.addr + r.size,
        unmapped is Err ==> final(unflush)@ == old(unflush)@,
{
    layout::lemma_total_is_sum(phys_zones.data@);
    layout::lemma_total_nonneg(phys_zones.data@);
}

/// The map of a process is full where no id is left, and is empty where it is new.
pub proof fn lemma_new_map_of_shared_memory(
    map: SMemMap,
    full: bool,
    id: usize,
    found: Option<&SMemMapEntry>,
    known: SMemMap,
    known_full: bool,
)
    requires
        call_ensures(SMemMap::new, (), map),
        call_ensures(SMemMap::is_full, (&map,), full),
        call_ensures(SMemMap::get, (&map, id), found),
        call_ensures(SMemMap::is_full, (&known,), known_full),
    ensures
        !full,
        found is None,
        known_full <==> known.spec_next_id() == usize::MAX,
{
}

/// An entry that is changed in place is what the map then holds under its id. What is known
/// under other ids stays.
pub proof fn lemma_changed_shared_memory(
    known: &mut SMemMap,
    id: usize,
    entry: Option<&mut SMemMapEntry>,
    other: usize,
    before: Option<&SMemMapEntry>,
    after: Option<&SMemMapEntry>,
)
    requires
        call_ensures(SMemMap::get_mut, (known, id), entry),
        call_ensures(SMemMap::get, (&*old(known), other), before),
        call_ensures(SMemMap::get, (&*final(known), other), after),
    ensures
        other != id ==> after == before,
        other == id ==> match entry {
            Some(e) => before == Some(&*e) && after == Some(&*final(e)),
            None => before is None && after is None,
        },
{
}

/// Whatever other threads do, mapping at a range refuses a layout whose size is not that of
/// the pages of the range, and one without a size, and else maps at these pages, if at all.
/// What is refused adds nothing to what the processor has to forget.
pub proof fn lemma_mapped_at_whatever_others_do<T: FrameAllocator>(
    space: AddressSpace<T>,
    phys_zones: VirtLayout,
    range: VirtRange,
    flush: &mut Vec<u64>,
    result: Result<VirtRange, SpaceError>,
    low: u64,
    high: u64,
)
    requires
        call_ensures(AddressSpace::<T>::map_at, (&space, phys_zones, range, flush), result),
        range.addr + range.size + 4095 <= u64::MAX,
        low == range.addr - range.addr % 4096,
        high == (range.addr + range.size + 4095) - (range.addr + range.size + 4095) % 4096,
    ensures
        ({
            let size = phys_zones.data@.fold_left(
                0int,
                |sum: int, piece: VirtLayoutElement| sum + piece.map_size,
            );
            &&& result is Err ==> final(flush)@ == old(flush)@
            &&& match result {
                Ok(at) => at.addr == low && at.size == size && size == high - low && size > 0
                    && low >= 4096,
                Err(SpaceError::Refused(MapError::SizeMismatch)) => size != high - low,
                Err(SpaceError::Refused(MapError::ZeroSize)) => size == high - low && size == 0,
                Err(SpaceError::Refused(MapError::InvalidZone)) => size == high - low && size > 0,
                Err(SpaceError::Refused(_)) => false,
                Err(_) => size == high - low && size > 0,
            }
        }),
{
    let cover = VirtRange { addr: low, size: (high - low) as u64 };
    layout::lemma_total_is_sum(phys_zones.data@);
    layout::lemma_total_nonneg(phys_zones.data@);
    assert(cover.is_page_cover(range));
}

/// While the lock of an address space is held, the same holds of what is asked for, and the
/// root table stays the same.
pub proof fn lemma_while_locked<T: FrameAllocator>(
    space: AddressSpace<T>,
    locked: SpaceGuard<T>,
    guard: &mut SpaceGuard<T>,
    phys_zones: VirtLayout,
    flush: &mut Vec<u64>,
    result: Result<VirtRange, SpaceError>,
    seeker: &mut SpaceGuard<T>,
    a: u64,
    found: Option<VirtRange>,
    taker: &mut SpaceGuard<T>,
    taken: Option<VirtMapper<T>>,
)
    requires
        call_ensures(AddressSpace::<T>::lock, (&space,), locked),
        call_ensures(SpaceGuard::<T>::map, (guard, phys_zones, flush), result),
        call_ensures(SpaceGuard::<T>::get_mapped_range, (seeker, a), found),
        call_ensures(SpaceGuard::<T>::take, (taker,), taken),
    ensures
        locked.root_entry() == space.root_entry(),
        final(guard).root_entry() == old(guard).root_entry(),
        final(seeker).root_entry() == old(seeker).root_entry(),
        final(taker).root_entry() == old(taker).root_entry(),
        taken matches Some(m) ==> m.root_entry() == old(taker).root_entry() && m.wf(),
        found matches Some(r) ==> r.addr <= a < r.addr + r.size,
        ({
            let size = phys_zones.data@.fold_left(
                0int,
                |sum: int, piece: VirtLayoutElement| sum + piece.map_size,
            );
            &&& result == Err::<VirtRange, SpaceError>(SpaceError::Refused(MapError::ZeroSize))
                <==> size == 0
            &&& result matches Ok(at) ==> at.size == size && at.addr >= 4096
            &&& result is Err ==> final(flush)@ == old(flush)@
        }),
{
    layout::lemma_total_is_sum(phys_zones.data@);
    layout::lemma_total_nonneg(phys_zones.data@);
}

/// What is put into a guarded space is there, and what is taken out is not.
pub proof fn lemma_put_and_taken<T: FrameAllocator>(
    mapper: VirtMapper<T>,
    made: Space<T>,
    put: &mut Space<T>,
    from: &mut Space<T>,
    taken: Option<VirtMapper<T>>,
)
    requires
        call_ensures(Space::<T>::new, (mapper,), made),
        call_ensures(Space::<T>::put, (put, mapper), ()),
        call_ensures(Space::<T>::take, (from,), taken),
    ensures
        made.content() == Some(mapper),
        final(put).content() == Some(mapper),
        taken == old(from).content(),
        final(from).content() is None,
{
}

/// While the lock of an address space is held, mapping at a range and unmapping one keep the
/// root table, and what is refused adds nothing to what the processor has to forget. A layout
/// is mapped at the pages of the range, if at all, and is refused where its size is not
/// theirs, or it has none.
pub proof fn lemma_mapped_at_while_locked<T: FrameAllocator>(
    guard: &mut SpaceGuard<T>,
    phys_zones: VirtLayout,
    range: VirtRange,
    flush: &mut Vec<u64>,
    result: Result<VirtRange, SpaceError>,
    low: u64,
    high: u64,
    unmapper: &mut SpaceGuard<T>,
    unflush: &mut Vec<u64>,
    unmapped: Result<VirtLayout, SpaceError>,
    putter: &mut SpaceGuard<T>,
    mapper: VirtMapper<T>,
)
    requires
        call_ensures(SpaceGuard::<T>::map_at, (guard, phys_zones, range, flush), result),
        call_ensures(SpaceGuard::<T>::unmap, (unmapper, range, unflush), unmapped),
        call_ensures(SpaceGuard::<T>::put, (putter, mapper), ()),
        range.addr + range.size + 4095 <= u64::MAX,
        low == range.addr - range.addr % 4096,
        high == (range.addr + range.size + 4095) - (range.addr + range.size + 4095) % 4096,
    ensures
        final(guard).root_entry() == old(guard).root_entry(),
        final(unmapper).root_entry() == old(unmapper).root_entry(),
        final(putter).root_entry() == old(putter).root_entry(),
        unmapped is Err ==> final(unflush)@ == old(unflush)@,
        ({
            let size = phys_zones.data@.fold_left(
                0int,
                |sum: int, piece: VirtLayoutElement| sum + piece.map_size,
            );
            &&& result is Err ==> final(flush)@ == old(flush)@
            &&& match result {
                Ok(at) => at.addr == low && at.size == size && size == high - low && size > 0
                    && low >= 4096,
                Err(SpaceError::Refused(MapError::SizeMismatch)) => size != high - low,
                Err(SpaceError::Refused(MapError::ZeroSize)) => size == high - low && size == 0,
                Err(SpaceError::Refused(MapError::InvalidZone)) => size == high - low && size > 0,
                Err(SpaceError::Refused(_)) => false,
                Err(_) => size == high - low && size > 0,
            }
        }),
{
    let cover = VirtRange { addr: low, size: (high - low) as u64 };
    layout::lemma_total_is_sum(phys_zones.data@);
    layout::lemma_total_nonneg(phys_zones.data@);
    assert(cover.is_page_cover(range));
}

} // verus!
