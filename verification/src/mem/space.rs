//! An address space that several threads use.
//!
//! The mapper lies behind a lock. What the lock guards is a `Space`, and the functions of
//! `Space` say what is done from a given state on. What is in there when the lock is taken
//! depends on the other threads, so the functions that take the lock say what is true
//! whatever that is.
use vstd::prelude::*;
use spin::{Mutex, MutexGuard};
use crate::mem::addr::{VirtRange, PAGE_SIZE};
use crate::mem::layout;
use crate::mem::layout::VirtLayout;
use crate::mem::mapper;
use crate::mem::mapper::{MapError, VirtMapper};
use crate::mem::mapping;
use crate::mem::page_table::FrameAllocator;

verus! {

/// The lock `spin::mutex::Mutex`. What it guards is not visible from outside.
#[verifier::external_type_specification]
#[verifier::external_body]
#[verifier::reject_recursive_types(T)]
#[verifier::reject_recursive_types(R)]
pub struct ExMutex<T: ?Sized, R>(spin::mutex::Mutex<T, R>);

/// The guard `spin::mutex::MutexGuard`, which holds a lock until it is dropped.
#[verifier::external_type_specification]
#[verifier::external_body]
#[verifier::reject_recursive_types(T)]
pub struct ExMutexGuard<'a, T: 'a + ?Sized>(spin::mutex::MutexGuard<'a, T>);

/// The strategy `spin::relax::Spin` by which a lock waits.
#[verifier::external_type_specification]
#[verifier::external_body]
pub struct ExSpin(spin::relax::Spin);

/// Calls `Mutex::new`: a lock that nobody holds, around `value`. Nothing is said of what
/// the lock guards, since any thread may change it.
#[verifier::external_body]
fn new_mutex<V>(value: V) -> (mutex: Mutex<V>)
{
    Mutex::new(value)
}

/// Calls `Mutex::lock`: waits until no other guard of the lock is left, and holds the
/// lock. Nothing is said of what the lock guards then, which is what the last thread
/// left there. A thread that holds the lock already waits forever.
#[verifier::external_body]
fn lock_mutex<V>(mutex: &Mutex<V>) -> (guard: MutexGuard<'_, V>)
{
    mutex.lock()
}

/// Calls `MutexGuard::deref_mut`: what the lock guards, to change it in place. Nothing is
/// said of its value, which depends on the other threads.
#[verifier::external_body]
fn guarded<'a, V>(guard: &'a mut MutexGuard<'_, V>) -> (value: &'a mut V)
{
    &mut **guard
}

/// Why a layout was not mapped or unmapped.
#[derive(Debug, Clone, Copy, PartialEq, Eq, Structural)]
pub enum SpaceError {
    Refused(MapError),
    /// An entry that is needed is in use already, or the range holds addresses that the
    /// processor does not take for addresses.
    InUse,
    /// A thread took the mapper and did not bring it back.
    Lost,
}

/// The mapper, where there is one and it has this root table.
pub open spec fn here<T: FrameAllocator>(
    content: Option<VirtMapper<T>>,
    cr3: u64,
) -> Option<VirtMapper<T>> {
    match content {
        Some(m) => if m.root_entry() == cr3 {
            Some(m)
        } else {
            None
        },
        None => None,
    }
}

/// What mapping a layout anywhere does, for each state that it is done from: the layout is
/// mapped at the lowest range that it fits in, or nothing changes.
pub open spec fn map_outcome<T: FrameAllocator>(
    before: Option<VirtMapper<T>>,
    after: Option<VirtMapper<T>>,
    cr3: u64,
    phys_zones: VirtLayout,
    flush_before: Seq<u64>,
    flush_after: Seq<u64>,
    result: Result<VirtRange, SpaceError>,
) -> bool {
    let size = layout::total(phys_zones.data@);
    &&& result == Err::<VirtRange, SpaceError>(SpaceError::Refused(MapError::ZeroSize)) <==> size
        == 0
    &&& result is Err ==> after == before && flush_after == flush_before
    &&& match here(before, cr3) {
        Some(m) => match result {
            Ok(range) => {
                &&& range.size == size
                &&& mapper::is_lowest_fit(m.zones(), m.max(), range)
                &&& m.clear_at(phys_zones.data@, range)
                &&& after is Some
                &&& mapper::mapped_to(
                    m,
                    after->0,
                    phys_zones.data@,
                    phys_zones.alloc_type,
                    range,
                    flush_before,
                    flush_after,
                )
            },
            Err(SpaceError::Refused(e)) => {
                &&& e == MapError::ZeroSize || e == MapError::NoSpace
                &&& e == MapError::NoSpace ==> forall|range: VirtRange|
                    range.size == size ==> !#[trigger] mapper::fits(m.zones(), m.max(), range)
            },
            Err(SpaceError::InUse) => exists|range: VirtRange|
                range.size == size && #[trigger] mapper::is_lowest_fit(m.zones(), m.max(), range)
                    && !m.clear_at(phys_zones.data@, range),
            Err(SpaceError::Lost) => false,
        },
        None => size > 0 ==> result == Err::<VirtRange, SpaceError>(SpaceError::Lost),
    }
}

/// What mapping a layout at a range of whole pages does, for each state that it is done
/// from.
pub open spec fn map_at_outcome<T: FrameAllocator>(
    before: Option<VirtMapper<T>>,
    after: Option<VirtMapper<T>>,
    cr3: u64,
    phys_zones: VirtLayout,
    cover: VirtRange,
    flush_before: Seq<u64>,
    flush_after: Seq<u64>,
    result: Result<VirtRange, SpaceError>,
) -> bool {
    let size = layout::total(phys_zones.data@);
    &&& result == Err::<VirtRange, SpaceError>(SpaceError::Refused(MapError::SizeMismatch))
        <==> cover.size != size
    &&& result == Err::<VirtRange, SpaceError>(SpaceError::Refused(MapError::ZeroSize))
        <==> cover.size == size && size == 0
    &&& result is Err ==> after == before && flush_after == flush_before
    &&& cover.size == size && size > 0 ==> match here(before, cr3) {
        Some(m) => if !mapper::fits(m.zones(), m.max(), cover) {
            result == Err::<VirtRange, SpaceError>(SpaceError::Refused(MapError::InvalidZone))
        } else if !m.clear_at(phys_zones.data@, cover) {
            result == Err::<VirtRange, SpaceError>(SpaceError::InUse)
        } else {
            &&& result == Ok::<VirtRange, SpaceError>(cover)
            &&& after is Some
            &&& mapper::mapped_to(
                m,
                after->0,
                phys_zones.data@,
                phys_zones.alloc_type,
                cover,
                flush_before,
                flush_after,
            )
        },
        None => result == Err::<VirtRange, SpaceError>(SpaceError::Lost),
    }
}

/// What mapping a layout at the pages of a range does, for each state that it is done from.
pub open spec fn map_at_range_outcome<T: FrameAllocator>(
    before: Option<VirtMapper<T>>,
    after: Option<VirtMapper<T>>,
    cr3: u64,
    phys_zones: VirtLayout,
    range: VirtRange,
    flush_before: Seq<u64>,
    flush_after: Seq<u64>,
    result: Result<VirtRange, SpaceError>,
) -> bool {
    forall|cover: VirtRange| #[trigger]
        cover.is_page_cover(range) ==> map_at_outcome(
            before,
            after,
            cr3,
            phys_zones,
            cover,
            flush_before,
            flush_after,
            result,
        )
}

/// In an address space that ends below the kernel's half, no entry that is needed is ever
/// in use: what fits is mapped.
pub proof fn lemma_user_space_is_not_in_use<T: FrameAllocator>(
    before: Option<VirtMapper<T>>,
    after: Option<VirtMapper<T>>,
    cr3: u64,
    phys_zones: VirtLayout,
    flush_before: Seq<u64>,
    flush_after: Seq<u64>,
    result: Result<VirtRange, SpaceError>,
)
    requires
        content_wf(before),
        here(before, cr3) is Some,
        (before->0).max() <= mapper::USER_END,
        mapping::ready(phys_zones),
    ensures
        map_outcome(before, after, cr3, phys_zones, flush_before, flush_after, result)
            ==> result != Err::<VirtRange, SpaceError>(SpaceError::InUse),
        forall|cover: VirtRange|
            cover.wf() && #[trigger] map_at_outcome(
                before,
                after,
                cr3,
                phys_zones,
                cover,
                flush_before,
                flush_after,
                result,
            ) ==> result != Err::<VirtRange, SpaceError>(SpaceError::InUse),
{
    let m = before->0;
    let elements = phys_zones.data@;
    assert forall|range: VirtRange|
        range.wf() && range.size == layout::total(elements) && mapper::fits(
            m.zones(),
            m.max(),
            range,
        ) implies #[trigger] m.clear_at(elements, range) by {
        mapper::lemma_free_is_clear(m, elements, range);
    }
    layout::lemma_total_nonneg(elements);
}

/// What unmapping a range does, for each state that it is done from.
pub open spec fn unmap_outcome<T: FrameAllocator>(
    before: Option<VirtMapper<T>>,
    after: Option<VirtMapper<T>>,
    cr3: u64,
    range: VirtRange,
    flush_before: Seq<u64>,
    flush_after: Seq<u64>,
    result: Result<VirtLayout, SpaceError>,
) -> bool {
    &&& result is Err ==> after == before && flush_after == flush_before
    &&& match here(before, cr3) {
        Some(m) => match result {
            Ok(layout) => {
                let p = mapper::slot(m.zones(), range);
                let zone = m.zones()[p];
                &&& 0 <= p < m.zones().len()
                &&& zone.range == range
                &&& layout.data@ == zone.elements
                &&& layout.alloc_type == zone.alloc_type
                &&& after is Some
                &&& mapper::unmapped_from(m, after->0, range, flush_before, flush_after)
            },
            Err(e) => {
                &&& e == SpaceError::Refused(MapError::NotMapped)
                &&& forall|i: int|
                    0 <= i < m.zones().len() ==> (#[trigger] m.zones()[i]).range != range
            },
        },
        None => result matches Err(SpaceError::Lost),
    }
}

/// Which mapped range holds an address, for each state that this is asked in.
pub open spec fn lookup_outcome<T: FrameAllocator>(
    content: Option<VirtMapper<T>>,
    cr3: u64,
    addr: u64,
    range: Option<VirtRange>,
) -> bool {
    match here(content, cr3) {
        Some(m) => match range {
            Some(r) => r.holds(addr) && exists|i: int|
                0 <= i < m.zones().len() && (#[trigger] m.zones()[i]).range == r,
            None => forall|i: int|
                0 <= i < m.zones().len() ==> !(#[trigger] m.zones()[i]).range.holds(addr),
        },
        None => range is None,
    }
}

/// Whether a mapper, where there is one, is well-formed.
pub open spec fn content_wf<T: FrameAllocator>(content: Option<VirtMapper<T>>) -> bool {
    content matches Some(m) ==> m.wf()
}

/// What the lock of an address space guards. A mapper that is in there is well-formed.
pub struct Space<T: FrameAllocator> {
    mapper: Option<VirtMapper<T>>,
}

impl<T: FrameAllocator> Space<T> {
    #[verifier::type_invariant]
    spec fn inv(self) -> bool {
        content_wf(self.mapper)
    }

    /// The mapper that is in there.
    pub closed spec fn content(self) -> Option<VirtMapper<T>> {
        self.mapper
    }

    pub fn new(mapper: VirtMapper<T>) -> (space: Space<T>)
        requires
            mapper.wf(),
        ensures
            space.content() == Some(mapper),
    {
        Space { mapper: Some(mapper) }
    }

    /// Takes the mapper out.
    pub fn take(&mut self) -> (mapper: Option<VirtMapper<T>>)
        ensures
            mapper == old(self).content(),
            content_wf(mapper),
            final(self).content() is None,
    {
        proof {
            use_type_invariant(&*self);
        }
        let mut mapper: Option<VirtMapper<T>> = None;
        std::mem::swap(&mut self.mapper, &mut mapper);
        mapper
    }

    /// Takes the mapper out where it has this root table.
    pub fn take_root(&mut self, cr3: u64) -> (mapper: Option<VirtMapper<T>>)
        ensures
            mapper == here(old(self).content(), cr3),
            content_wf(mapper),
            final(self).content() == if mapper is Some {
                None
            } else {
                old(self).content()
            },
    {
        match self.take() {
            Some(mapper) => {
                if mapper.is_loaded(cr3) {
                    Some(mapper)
                } else {
                    self.put(mapper);
                    None
                }
            },
            None => None,
        }
    }

    /// Puts the mapper back.
    pub fn put(&mut self, mapper: VirtMapper<T>)
        requires
            mapper.wf(),
        ensures
            final(self).content() == Some(mapper),
    {
        self.mapper = Some(mapper);
    }

    /// The mapped range that holds an address.
    pub fn get_mapped_range(&self, cr3: u64, addr: u64) -> (range: Option<VirtRange>)
        ensures
            content_wf(self.content()),
            lookup_outcome(self.content(), cr3, addr, range),
    {
        proof {
            use_type_invariant(self);
        }
        match &self.mapper {
            Some(mapper) => {
                if mapper.is_loaded(cr3) {
                    mapper.get_mapped_range(addr)
                } else {
                    None
                }
            },
            None => None,
        }
    }

    /// Maps a layout at the lowest range that it fits in.
    pub fn map(&mut self, cr3: u64, phys_zones: VirtLayout, flush: &mut Vec<u64>) -> (result:
        Result<VirtRange, SpaceError>)
        requires
            mapping::ready(phys_zones),
        ensures
            content_wf(old(self).content()),
            content_wf(final(self).content()),
            map_outcome(
                old(self).content(),
                final(self).content(),
                cr3,
                phys_zones,
                old(flush)@,
                final(flush)@,
                result,
            ),
    {
        proof {
            use_type_invariant(&*self);
            layout::lemma_total_nonneg(phys_zones.data@);
        }
        let size: u64 = phys_zones.size();
        if size == 0 {
            return Err(SpaceError::Refused(MapError::ZeroSize));
        }
        let mut mapper = match self.take_root(cr3) {
            Some(mapper) => mapper,
            None => {
                return Err(SpaceError::Lost);
            },
        };
        let clear = match mapper.find_range(size) {
            Some(range) => mapper.is_clear_at(&phys_zones, range),
            None => true,
        };
        if !clear {
            self.put(mapper);
            return Err(SpaceError::InUse);
        }
        proof {
            assert forall|range: VirtRange|
                range.size == layout::total(phys_zones.data@) && range.size > 0
                    && #[trigger] mapper::is_lowest_fit(
                    mapper.zones(),
                    mapper.max(),
                    range,
                ) implies mapper.clear_at(phys_zones.data@, range) by {
                let found = choose|found: VirtRange|
                    found.size == size && mapper::is_lowest_fit(
                        mapper.zones(),
                        mapper.max(),
                        found,
                    ) && mapper.clear_at(phys_zones.data@, found);
                lemma_one_lowest_fit(mapper.zones(), mapper.max(), range, found);
            }
        }
        let result = mapper.map(phys_zones, flush);
        self.put(mapper);
        match result {
            Ok(range) => Ok(range),
            Err(e) => Err(SpaceError::Refused(e)),
        }
    }

    /// Maps a layout at the pages of a range.
    pub fn map_at(
        &mut self,
        cr3: u64,
        phys_zones: VirtLayout,
        virt_zone: VirtRange,
        flush: &mut Vec<u64>,
    ) -> (result: Result<VirtRange, SpaceError>)
        requires
            mapping::ready(phys_zones),
            virt_zone.end() + PAGE_SIZE - 1 <= u64::MAX,
        ensures
            content_wf(old(self).content()),
            content_wf(final(self).content()),
            map_at_range_outcome(
                old(self).content(),
                final(self).content(),
                cr3,
                phys_zones,
                virt_zone,
                old(flush)@,
                final(flush)@,
                result,
            ),
    {
        proof {
            use_type_invariant(&*self);
            layout::lemma_total_nonneg(phys_zones.data@);
        }
        let cover = virt_zone.aligned();
        let size: u64 = phys_zones.size();
        assert forall|other: VirtRange| #[trigger] other.is_page_cover(virt_zone) implies other
            == cover by {
            lemma_one_cover(other, cover, virt_zone);
        }
        if size != cover.size() {
            return Err(SpaceError::Refused(MapError::SizeMismatch));
        }
        if size == 0 {
            return Err(SpaceError::Refused(MapError::ZeroSize));
        }
        let mut mapper = match self.take_root(cr3) {
            Some(mapper) => mapper,
            None => {
                return Err(SpaceError::Lost);
            },
        };
        proof {
            mapper::lemma_free_space_is_fit(mapper.zones(), mapper.max(), cover);
        }
        if mapper.free_space(cover, None).is_some() && !mapper.is_clear_at(&phys_zones, cover) {
            self.put(mapper);
            return Err(SpaceError::InUse);
        }
        let result = mapper.map_at(phys_zones, virt_zone, flush);
        self.put(mapper);
        match result {
            Ok(range) => Ok(range),
            Err(e) => Err(SpaceError::Refused(e)),
        }
    }

    /// Unmaps a range that was mapped as a whole, and hands its layout back.
    pub fn unmap(&mut self, cr3: u64, virt_zone: VirtRange, flush: &mut Vec<u64>) -> (result:
        Result<VirtLayout, SpaceError>)
        ensures
            content_wf(old(self).content()),
            content_wf(final(self).content()),
            unmap_outcome(
                old(self).content(),
                final(self).content(),
                cr3,
                virt_zone,
                old(flush)@,
                final(flush)@,
                result,
            ),
            result matches Ok(layout) ==> mapping::ready(layout),
    {
        proof {
            use_type_invariant(&*self);
        }
        let mut mapper = match self.take_root(cr3) {
            Some(mapper) => mapper,
            None => {
                return Err(SpaceError::Lost);
            },
        };
        let result = mapper.unmap(virt_zone, flush);
        self.put(mapper);
        match result {
            Ok(layout) => Ok(layout),
            Err(e) => Err(SpaceError::Refused(e)),
        }
    }
}

/// An address space behind a lock.
#[verifier::reject_recursive_types(T)]
pub struct AddressSpace<T: FrameAllocator> {
    space: Mutex<Space<T>>,
    /// The entry that refers to the root table, which stays the same.
    cr3: u64,
}

/// An address space whose lock is held.
#[verifier::reject_recursive_types(T)]
pub struct SpaceGuard<'a, T: FrameAllocator> {
    guard: MutexGuard<'a, Space<T>>,
    cr3: u64,
}

impl<'a, T: FrameAllocator> SpaceGuard<'a, T> {
    /// The entry that refers to the root table of the address space.
    pub closed spec fn root_entry(&self) -> u64 {
        self.cr3
    }

    /// Takes the mapper of the address space out. It has to be put back before the lock is
    /// given up, or it is lost to the other threads.
    pub fn take(&mut self) -> (mapper: Option<VirtMapper<T>>)
        ensures
            mapper matches Some(m) ==> m.wf() && m.root_entry() == old(self).root_entry(),
            final(self).root_entry() == old(self).root_entry(),
    {
        let cr3: u64 = self.cr3;
        guarded(&mut self.guard).take_root(cr3)
    }

    /// Puts the mapper back. One that has another root table is not handed out again.
    pub fn put(&mut self, mapper: VirtMapper<T>)
        requires
            mapper.wf(),
        ensures
            final(self).root_entry() == old(self).root_entry(),
    {
        guarded(&mut self.guard).put(mapper);
    }

    /// The mapped range that holds an address, in the state that the other threads left.
    pub fn get_mapped_range(&mut self, addr: u64) -> (range: Option<VirtRange>)
        ensures
            exists|content: Option<VirtMapper<T>>|
                content_wf(content) && #[trigger] lookup_outcome(
                    content,
                    old(self).root_entry(),
                    addr,
                    range,
                ),
            final(self).root_entry() == old(self).root_entry(),
    {
        let cr3: u64 = self.cr3;
        guarded(&mut self.guard).get_mapped_range(cr3, addr)
    }

    /// Maps a layout at the lowest range that it fits in, in the state that the other
    /// threads left.
    pub fn map(&mut self, phys_zones: VirtLayout, flush: &mut Vec<u64>) -> (result: Result<
        VirtRange,
        SpaceError,
    >)
        requires
            mapping::ready(phys_zones),
        ensures
            exists|before: Option<VirtMapper<T>>, after: Option<VirtMapper<T>>|
                content_wf(before) && content_wf(after) && #[trigger] map_outcome(
                    before,
                    after,
                    old(self).root_entry(),
                    phys_zones,
                    old(flush)@,
                    final(flush)@,
                    result,
                ),
            final(self).root_entry() == old(self).root_entry(),
    {
        let cr3: u64 = self.cr3;
        let space = guarded(&mut self.guard);
        let ghost before = space.content();
        let result = space.map(cr3, phys_zones, flush);
        let ghost after = space.content();
        proof {
            assert(map_outcome(before, after, cr3, phys_zones, old(flush)@, flush@, result));
            assert(cr3 == old(self).root_entry());
        }
        result
    }

    /// Maps a layout at the pages of a range, in the state that the other threads left.
    pub fn map_at(
        &mut self,
        phys_zones: VirtLayout,
        virt_zone: VirtRange,
        flush: &mut Vec<u64>,
    ) -> (result: Result<VirtRange, SpaceError>)
        requires
            mapping::ready(phys_zones),
            virt_zone.end() + PAGE_SIZE - 1 <= u64::MAX,
        ensures
            exists|before: Option<VirtMapper<T>>, after: Option<VirtMapper<T>>|
                content_wf(before) && content_wf(after) && #[trigger] map_at_range_outcome(
                    before,
                    after,
                    old(self).root_entry(),
                    phys_zones,
                    virt_zone,
                    old(flush)@,
                    final(flush)@,
                    result,
                ),
            final(self).root_entry() == old(self).root_entry(),
    {
        let cr3: u64 = self.cr3;
        let space = guarded(&mut self.guard);
        let ghost before = space.content();
        let result = space.map_at(cr3, phys_zones, virt_zone, flush);
        let ghost after = space.content();
        proof {
            assert(cr3 == old(self).root_entry());
            assert(map_at_range_outcome(
                before,
                after,
                cr3,
                phys_zones,
                virt_zone,
                old(flush)@,
                flush@,
                result,
            ));
        }
        result
    }

    /// Unmaps a range that was mapped as a whole in the state that the other threads left,
    /// and hands its layout back.
    pub fn unmap(&mut self, virt_zone: VirtRange, flush: &mut Vec<u64>) -> (result: Result<
        VirtLayout,
        SpaceError,
    >)
        ensures
            exists|before: Option<VirtMapper<T>>, after: Option<VirtMapper<T>>|
                content_wf(before) && content_wf(after) && #[trigger] unmap_outcome(
                    before,
                    after,
                    old(self).root_entry(),
                    virt_zone,
                    old(flush)@,
                    final(flush)@,
                    result,
                ),
            result matches Ok(layout) ==> mapping::ready(layout),
            final(self).root_entry() == old(self).root_entry(),
    {
        let cr3: u64 = self.cr3;
        let space = guarded(&mut self.guard);
        let ghost before = space.content();
        let result = space.unmap(cr3, virt_zone, flush);
        let ghost after = space.content();
        proof {
            assert(cr3 == old(self).root_entry());
            assert(unmap_outcome(before, after, cr3, virt_zone, old(flush)@, flush@, result));
        }
        result
    }
}

/// The range of whole pages around a range is one.
proof fn lemma_one_cover(a: VirtRange, b: VirtRange, inner: VirtRange)
    requires
        a.is_page_cover(inner),
        b.is_page_cover(inner),
    ensures
        a == b,
{
}

/// The lowest range of a size that fits is one.
proof fn lemma_one_lowest_fit(zones: Seq<mapper::Zone>, max: u64, a: VirtRange, b: VirtRange)
    requires
        a.size == b.size,
        mapper::is_lowest_fit(zones, max, a),
        mapper::is_lowest_fit(zones, max, b),
    ensures
        a == b,
{
}

impl<T: FrameAllocator> AddressSpace<T> {
    /// The entry that refers to the root table, as the processor gets it.
    pub closed spec fn root_entry(&self) -> u64 {
        self.cr3
    }

    /// Puts a mapper behind a lock.
    pub fn new(mapper: VirtMapper<T>) -> (space: AddressSpace<T>)
        requires
            mapper.wf(),
        ensures
            space.root_entry() == mapper.root_entry(),
    {
        let cr3: u64 = mapper.load();
        AddressSpace { space: new_mutex(Space::new(mapper)), cr3 }
    }

    /// Waits for the lock of the address space.
    pub fn lock(&self) -> (guard: SpaceGuard<'_, T>)
        ensures
            guard.root_entry() == self.root_entry(),
    {
        SpaceGuard { guard: lock_mutex(&self.space), cr3: self.cr3 }
    }

    /// What the processor's `cr3` register has to hold for this address space. The root
    /// table stays the same, so this takes no lock.
    pub fn load(&self) -> (cr3: u64)
        ensures
            cr3 == self.root_entry(),
    {
        self.cr3
    }

    /// Whether this address space is in use, given what `cr3` holds.
    pub fn is_loaded(&self, cr3: u64) -> (loaded: bool)
        ensures
            loaded == (cr3 == self.root_entry()),
    {
        self.cr3 == cr3
    }

    /// The mapped range that holds an address, in the state that the other threads left.
    pub fn get_mapped_range(&self, addr: u64) -> (range: Option<VirtRange>)
        ensures
            exists|content: Option<VirtMapper<T>>|
                content_wf(content) && #[trigger] lookup_outcome(
                    content,
                    self.root_entry(),
                    addr,
                    range,
                ),
    {
        let mut guard = self.lock();
        guard.get_mapped_range(addr)
    }

    /// Maps a layout at the lowest range that it fits in, in the state that the other
    /// threads left.
    pub fn map(&self, phys_zones: VirtLayout, flush: &mut Vec<u64>) -> (result: Result<
        VirtRange,
        SpaceError,
    >)
        requires
            mapping::ready(phys_zones),
        ensures
            exists|before: Option<VirtMapper<T>>, after: Option<VirtMapper<T>>|
                content_wf(before) && content_wf(after) && #[trigger] map_outcome(
                    before,
                    after,
                    self.root_entry(),
                    phys_zones,
                    old(flush)@,
                    final(flush)@,
                    result,
                ),
    {
        let mut guard = self.lock();
        guard.map(phys_zones, flush)
    }

    /// Maps a layout at the pages of a range, in the state that the other threads left.
    pub fn map_at(
        &self,
        phys_zones: VirtLayout,
        virt_zone: VirtRange,
        flush: &mut Vec<u64>,
    ) -> (result: Result<VirtRange, SpaceError>)
        requires
            mapping::ready(phys_zones),
            virt_zone.end() + PAGE_SIZE - 1 <= u64::MAX,
        ensures
            exists|before: Option<VirtMapper<T>>, after: Option<VirtMapper<T>>|
                content_wf(before) && content_wf(after) && #[trigger] map_at_range_outcome(
                    before,
                    after,
                    self.root_entry(),
                    phys_zones,
                    virt_zone,
                    old(flush)@,
                    final(flush)@,
                    result,
                ),
    {
        let mut guard = self.lock();
        guard.map_at(phys_zones, virt_zone, flush)
    }

    /// Unmaps a range that was mapped as a whole in the state that the other threads left,
    /// and hands its layout back.
    pub fn unmap(&self, virt_zone: VirtRange, flush: &mut Vec<u64>) -> (result: Result<
        VirtLayout,
        SpaceError,
    >)
        ensures
            exists|before: Option<VirtMapper<T>>, after: Option<VirtMapper<T>>|
                content_wf(before) && content_wf(after) && #[trigger] unmap_outcome(
                    before,
                    after,
                    self.root_entry(),
                    virt_zone,
                    old(flush)@,
                    final(flush)@,
                    result,
                ),
            result matches Ok(layout) ==> mapping::ready(layout),
    {
        let mut guard = self.lock();
        guard.unmap(virt_zone, flush)
    }
}

} // verus!
