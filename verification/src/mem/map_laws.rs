//! What holds of the calls on an address space, said of what goes into a call and what comes
//! out, and of what the processor then makes of an address.
use vstd::prelude::*;
use crate::mem::addr::{Allocation, PageSize, VirtRange};
use crate::mem::flags;
use crate::mem::flags::{PageMappingFlags, PageTableFlags};
use crate::mem::layout;
use crate::mem::layout::{AllocType, VirtLayout, VirtLayoutElement, VirtLayoutElementType};
use crate::mem::mapper;
use crate::mem::mapper::{MapError, VirtMapper, Zone};
use crate::mem::mapping;
use crate::mem::mapping::PageMappingAction;
use crate::mem::page_table;
use crate::mem::page_table::{FrameAllocator, PageMemory, PageTablePointer};
use crate::mem::translate;
use crate::mem::walk;

verus! {

proof fn lemma_sized_bits(bits: u64, size: u64)
    by (bit_vector)
    requires
        size == 0 || size == 1u64 << 7,
        bits & 0x7fff_ffff_ffff_fff8 == 0,
    ensures
        (bits | size) & 1 == bits & 1,
        (bits | size) & 2 == bits & 2,
        (bits | size) & 4 == bits & 4,
        (bits | size) & 0x8000_0000_0000_0000 == bits & 0x8000_0000_0000_0000,
        (bits | size) & 0x80 != 0 <==> size != 0,
        (bits | size) & 0x7fff_ffff_ffff_ff78 == 0,
        1u64 << 7 != 0,
{
}

/// Every address of a piece of a mapped range that may be accessed leads to the byte of the
/// piece's memory that lies as far from the start, and allows what the mapping allows, each
/// flag for itself: it may be written where the mapping may be, used in user mode where the
/// mapping may be, and executed where the mapping may be. Besides that the entry tells
/// whether its page is a large one, and nothing else.
pub proof fn lemma_access_of_mapped_address<T: FrameAllocator>(
    mapper: VirtMapper<T>,
    i: int,
    j: int,
    allowed: PageMappingFlags,
    start: int,
    phys: u64,
    a: u64,
)
    requires
        mapper.wf(),
        0 <= i < mapper.zones().len(),
        0 <= j < mapper.zones()[i].elements.len(),
        call_ensures(
            PageTableFlags::from_mapping_flags,
            (allowed,),
            mapper.zones()[i].elements[j].flags,
        ),
        allowed.bits & 7 != 0,
        match mapper.zones()[i].elements[j].phys_data {
            VirtLayoutElementType::Mem(range) => phys == range.addr && range.addr + range.size
                <= 0x10_0000_0000_0000,
            VirtLayoutElementType::AllocedMem(m) => phys == m.phys && m.phys + m.len
                <= 0x10_0000_0000_0000,
            VirtLayoutElementType::Empty(_) => false,
        },
        start == mapper.zones()[i].range.addr + mapper.zones()[i].elements.take(j).fold_left(
            0int,
            |sum: int, piece: VirtLayoutElement| sum + piece.map_size,
        ),
        start <= a < start + mapper.zones()[i].elements[j].map_size,
    ensures
        translate::translate(mapper.pages(), a) == Some(phys + (a - start)),
        translate::access(mapper.pages(), a) matches Some(bits) && {
            &&& bits & 1 != 0
            &&& bits & 2 != 0 <==> allowed.bits & 2 != 0
            &&& bits & 4 != 0 <==> allowed.bits & 8 != 0
            &&& bits & 0x8000_0000_0000_0000 != 0 <==> allowed.bits & 4 == 0
            &&& bits & 0x80 != 0 <==> (translate::page_of(mapper.pages(), a)->0).1 != PageSize::K4
            &&& bits & 0x7fff_ffff_ffff_ff78 == 0
        },
{
    let zone = mapper.zones()[i];
    let element = zone.elements[j];
    assert(zone.wf(mapper.max()));
    assert(element.maps_whole() && element.wf());
    flags::lemma_mapping_bit_by_bit(allowed);
    flags::lemma_low_bits(allowed.bits);
    flags::lemma_low_bits(element.flags.bits);
    assert(element.flags.spec_present());
    layout::lemma_total_is_sum(zone.elements.take(j));
    mapping::lemma_zones_from(zone.elements, zone.range.addr as int, true);
    let piece = translate::pieces_of(zone)[j];
    assert(piece == mapping::zone_of(
        element,
        zone.range.addr + layout::total(zone.elements.take(j)),
        true,
    ));
    translate::lemma_mapped_translates(mapper, i, j, a);
    lemma_sized_bits(
        element.flags.bits,
        mapper::size_flag((translate::page_of(mapper.pages(), a)->0).1),
    );
}

/// The range that is found for a size lies behind the null page and before the end of the
/// address space, and overlaps no mapped range. No lower range does as well, and where none
/// is found there is none.
pub proof fn lemma_found_range<T: FrameAllocator>(
    mapper: VirtMapper<T>,
    size: u64,
    found: Option<VirtRange>,
    other: u64,
)
    requires
        mapper.wf(),
        call_ensures(VirtMapper::<T>::find_range, (&mapper, size), found),
    ensures
        found matches Some(range) ==> {
            &&& range.size == size
            &&& range.addr >= 4096
            &&& range.addr + size <= mapper.max()
            &&& forall|i: int|
                #![trigger mapper.zones()[i]]
                0 <= i < mapper.zones().len() ==> mapper.zones()[i].range.addr
                    + mapper.zones()[i].range.size <= range.addr || range.addr + size
                    <= mapper.zones()[i].range.addr
        },
        other >= 4096 && other + size <= mapper.max() && (forall|i: int|
            #![trigger mapper.zones()[i]]
            0 <= i < mapper.zones().len() ==> mapper.zones()[i].range.addr
                + mapper.zones()[i].range.size <= other || other + size
                <= mapper.zones()[i].range.addr) ==> (found matches Some(range) && range.addr
            <= other),
{
    let low = VirtRange { addr: other, size };
    if other >= 4096 && other + size <= mapper.max() && (forall|i: int|
        #![trigger mapper.zones()[i]]
        0 <= i < mapper.zones().len() ==> mapper.zones()[i].range.addr
            + mapper.zones()[i].range.size <= other || other + size
            <= mapper.zones()[i].range.addr) {
        assert(mapper::fits(mapper.zones(), mapper.max(), low));
        assert(found is Some);
        assert(mapper::is_lowest_fit(mapper.zones(), mapper.max(), found->0));
        assert((found->0).addr <= low.addr);
    }
    if found is Some {
        let range = found->0;
        assert forall|i: int|
            #![trigger mapper.zones()[i]]
            0 <= i < mapper.zones().len() implies mapper.zones()[i].range.addr
            + mapper.zones()[i].range.size <= range.addr || range.addr + size
            <= mapper.zones()[i].range.addr by {
            assert(range.disjoint(mapper.zones()[i].range));
        }
    }
}

/// The free space to both sides of a range is free: with it the range still lies behind the
/// null page and before the end of the address space, and overlaps no mapped range but one
/// that is left out. It is all there is: no free range around it starts lower or ends higher.
/// Where there is none, there is no free range around it at all.
pub proof fn lemma_free_space_around<T: FrameAllocator>(
    mapper: VirtMapper<T>,
    range: VirtRange,
    exclude: Option<VirtRange>,
    space: Option<(u64, u64)>,
    low: u64,
    high: u64,
)
    requires
        mapper.wf(),
        range.addr + range.size <= u64::MAX,
        call_ensures(VirtMapper::<T>::free_space, (&mapper, range, exclude), space),
    ensures
        space matches Some((left, right)) ==> {
            &&& range.addr - left >= 4096
            &&& range.addr + range.size + right <= mapper.max()
            &&& forall|i: int|
                #![trigger mapper.zones()[i]]
                0 <= i < mapper.zones().len() && Some(mapper.zones()[i].range) != exclude
                    ==> mapper.zones()[i].range.addr + mapper.zones()[i].range.size <= range.addr
                    - left || range.addr + range.size + right <= mapper.zones()[i].range.addr
        },
        4096 <= low <= range.addr && range.addr + range.size <= high <= mapper.max() && (forall|
            i: int,
        |
            #![trigger mapper.zones()[i]]
            0 <= i < mapper.zones().len() && Some(mapper.zones()[i].range) != exclude
                ==> mapper.zones()[i].range.addr + mapper.zones()[i].range.size <= low || high
                <= mapper.zones()[i].range.addr) ==> (space matches Some((left, right))
            && range.addr - left <= low && high <= range.addr + range.size + right),
{
    lemma_free_space_of_zones(mapper.zones(), mapper.max(), range, exclude, low, high);
}

/// The ranges without one that is left out, among which the free space is looked for.
proof fn lemma_left_out(
    zones: Seq<Zone>,
    max: u64,
    range: VirtRange,
    exclude: Option<VirtRange>,
) -> (rest: Seq<Zone>)
    requires
        mapper::zones_ok(zones, max),
        range.wf(),
    ensures
        mapper::zones_ok(rest, max),
        mapper::spec_free_space(zones, max, range, exclude) == mapper::spec_free_space(
            rest,
            max,
            range,
            None,
        ),
        forall|i: int|
            0 <= i < zones.len() && Some((#[trigger] zones[i]).range) != exclude ==> rest.contains(
                zones[i],
            ),
        forall|j: int|
            0 <= j < rest.len() ==> zones.contains(#[trigger] rest[j]) && Some(rest[j].range)
                != exclude,
{
    if exclude is Some && exists|i: int|
        0 <= i < zones.len() && (#[trigger] zones[i]).range == exclude->0 {
        let at = choose|i: int| 0 <= i < zones.len() && (#[trigger] zones[i]).range == exclude->0;
        let rest = zones.remove(at);
        mapper::lemma_remove_zone(zones, max, at);
        mapper::lemma_excluded_is_left_out(zones, max, range, at);
        assert forall|i: int|
            0 <= i < zones.len() && Some(
                (#[trigger] zones[i]).range,
            ) != exclude implies rest.contains(zones[i]) by {
            let j = if i < at { i } else { i - 1 };
            assert(rest[j] == zones[i]);
        }
        assert forall|j: int| 0 <= j < rest.len() implies zones.contains(#[trigger] rest[j])
            && Some(rest[j].range) != exclude by {
            let i = if j < at { j } else { j + 1 };
            assert(rest[j] == zones[i]);
            assert(zones[i].wf(max) && zones[at].wf(max));
            if i < at {
                assert(zones[i].range.end() <= zones[at].range.addr);
            } else {
                assert(zones[at].range.end() <= zones[i].range.addr);
            }
        }
        rest
    } else {
        if exclude is Some {
            mapper::lemma_excluded_is_not_there(zones, max, range, exclude->0);
        }
        assert forall|j: int| 0 <= j < zones.len() implies zones.contains(#[trigger] zones[j])
            && Some(zones[j].range) != exclude by {}
        zones
    }
}

proof fn lemma_free_space_of_zones(
    zones: Seq<Zone>,
    max: u64,
    range: VirtRange,
    exclude: Option<VirtRange>,
    low: u64,
    high: u64,
)
    requires
        mapper::zones_ok(zones, max),
        range.wf(),
    ensures
        mapper::spec_free_space(zones, max, range, exclude) matches Some((left, right)) ==> {
            &&& range.addr - left >= 4096
            &&& range.addr + range.size + right <= max
            &&& forall|i: int|
                #![trigger zones[i]]
                0 <= i < zones.len() && Some(zones[i].range) != exclude ==> zones[i].range.addr
                    + zones[i].range.size <= range.addr - left || range.addr + range.size + right
                    <= zones[i].range.addr
        },
        4096 <= low <= range.addr && range.addr + range.size <= high <= max && (forall|i: int|
            #![trigger zones[i]]
            0 <= i < zones.len() && Some(zones[i].range) != exclude ==> zones[i].range.addr
                + zones[i].range.size <= low || high <= zones[i].range.addr) ==> (
        mapper::spec_free_space(zones, max, range, exclude) matches Some((left, right))
            && range.addr - left <= low && high <= range.addr + range.size + right),
{
    let rest = lemma_left_out(zones, max, range, exclude);
    let space = mapper::spec_free_space(zones, max, range, exclude);
    mapper::lemma_free_space_is_widest(rest, max, range);
    if space is Some {
        let (left, right) = space->0;
        let wide = mapper::widened(range, left, right);
        assert(mapper::fits(rest, max, wide));
        assert forall|i: int|
            #![trigger zones[i]]
            0 <= i < zones.len() && Some(zones[i].range) != exclude implies zones[i].range.addr
            + zones[i].range.size <= range.addr - left || range.addr + range.size + right
            <= zones[i].range.addr by {
            let j = choose|j: int| 0 <= j < rest.len() && rest[j] == zones[i];
            assert(wide.disjoint(rest[j].range));
        }
    }
    if 4096 <= low <= range.addr && range.addr + range.size <= high <= max && (forall|i: int|
        #![trigger zones[i]]
        0 <= i < zones.len() && Some(zones[i].range) != exclude ==> zones[i].range.addr
            + zones[i].range.size <= low || high <= zones[i].range.addr) {
        let around = VirtRange { addr: low, size: (high - low) as u64 };
        assert forall|j: int| 0 <= j < rest.len() implies around.disjoint(
            (#[trigger] rest[j]).range,
        ) by {
            let i = choose|i: int| 0 <= i < zones.len() && zones[i] == rest[j];
            assert(Some(zones[i].range) != exclude);
        }
        assert(mapper::fits(rest, max, around));
        assert(mapper::covers(around, range));
    }
}

/// The mapped range that is found for an address holds the address. Where none is found, no
/// mapped range holds it. A range is mapped where it is one of the mapped ranges as a whole.
pub proof fn lemma_range_of_address<T: FrameAllocator>(
    mapper: VirtMapper<T>,
    a: u64,
    found: Option<VirtRange>,
    range: VirtRange,
    mapped: bool,
)
    requires
        mapper.wf(),
        call_ensures(VirtMapper::<T>::get_mapped_range, (&mapper, a), found),
        call_ensures(VirtMapper::<T>::contains, (&mapper, range), mapped),
    ensures
        found matches Some(r) ==> r.addr <= a < r.addr + r.size && exists|i: int|
            0 <= i < mapper.zones().len() && (#[trigger] mapper.zones()[i]).range == r,
        found is None ==> forall|i: int|
            #![trigger mapper.zones()[i]]
            0 <= i < mapper.zones().len() ==> a < mapper.zones()[i].range.addr || a
                >= mapper.zones()[i].range.addr + mapper.zones()[i].range.size,
        mapped <==> exists|i: int|
            0 <= i < mapper.zones().len() && (#[trigger] mapper.zones()[i]).range == range,
{
    if found is None {
        assert forall|i: int|
            #![trigger mapper.zones()[i]]
            0 <= i < mapper.zones().len() implies a < mapper.zones()[i].range.addr || a
            >= mapper.zones()[i].range.addr + mapper.zones()[i].range.size by {
            assert(!mapper.zones()[i].range.holds(a));
        }
    }
}

/// The processor is told the entry that refers to the root table, and an address space is in
/// use where the processor holds that entry.
pub proof fn lemma_loaded_space<T: FrameAllocator>(
    mapper: VirtMapper<T>,
    cr3: u64,
    held: u64,
    loaded: bool,
)
    requires
        call_ensures(VirtMapper::<T>::load, (&mapper,), cr3),
        call_ensures(VirtMapper::<T>::is_loaded, (&mapper, held), loaded),
    ensures
        cr3 == mapper.root_entry(),
        loaded <==> held == cr3,
{
}

/// What is handed back with an address space is the memory that was allocated for the pieces
/// of its mapped ranges, whatever the type of a range: each allocation as often as it stands
/// behind a piece of one of them, and nothing else.
pub proof fn lemma_released_memory<T: FrameAllocator>(
    mapper: &mut VirtMapper<T>,
    mem: Vec<Allocation>,
    m: Allocation,
)
    requires
        call_ensures(VirtMapper::<T>::release, (mapper,), mem),
    ensures
        mem@.to_multiset().count(m) == Set::new(
            |at: (int, int)|
                0 <= at.0 < old(mapper).zones().len() && 0 <= at.1
                    < old(mapper).zones()[at.0].elements.len()
                    && old(mapper).zones()[at.0].elements[at.1].phys_data
                    == VirtLayoutElementType::AllocedMem(m),
        ).len(),
        mem@.contains(m) <==> exists|i: int, j: int|
            0 <= i < old(mapper).zones().len() && 0 <= j < old(mapper).zones()[i].elements.len()
                && (#[trigger] old(mapper).zones()[i].elements[j]).phys_data
                == VirtLayoutElementType::AllocedMem(m),
{
    broadcast use vstd::seq_lib::group_to_multiset_ensures;

    let zones = old(mapper).zones();
    let stands = Set::new(
        |at: (int, int)|
            0 <= at.0 < zones.len() && 0 <= at.1 < zones[at.0].elements.len()
                && zones[at.0].elements[at.1].phys_data == VirtLayoutElementType::AllocedMem(m),
    );
    mapper::lemma_all_memory_is_handed_back(zones, m);
    if mem@.contains(m) {
        assert(mem@.to_multiset().count(m) > 0);
        let at = stands.choose();
        assert(stands.contains(at));
        assert(zones[at.0].elements[at.1].phys_data == VirtLayoutElementType::AllocedMem(m));
    }
    if exists|i: int, j: int|
        0 <= i < zones.len() && 0 <= j < zones[i].elements.len() && (
        #[trigger] zones[i].elements[j]).phys_data == VirtLayoutElementType::AllocedMem(m) {
        let (i, j) = choose|i: int, j: int|
            0 <= i < zones.len() && 0 <= j < zones[i].elements.len() && (
            #[trigger] zones[i].elements[j]).phys_data == VirtLayoutElementType::AllocedMem(m);
        assert(stands.contains((i, j)));
        assert(stands.len() > 0);
    }
}

proof fn lemma_action_is_flushed(actions: Seq<PageMappingAction>, k: int) -> (m: int)
    requires
        0 <= k < actions.len(),
        !(actions[k] is ReserveFrame),
    ensures
        0 <= m < mapper::flushed(actions).len(),
        mapper::flushed(actions)[m] == actions[k].frame().start(),
    decreases actions.len(),
{
    if k == actions.len() - 1 {
        mapper::flushed(actions).len() - 1
    } else {
        assert(actions.drop_last()[k] == actions[k]);
        lemma_action_is_flushed(actions.drop_last(), k)
    }
}

proof fn lemma_flushed_is_action(actions: Seq<PageMappingAction>, m: int) -> (k: int)
    requires
        0 <= m < mapper::flushed(actions).len(),
    ensures
        0 <= k < actions.len(),
        !(actions[k] is ReserveFrame),
        mapper::flushed(actions)[m] == actions[k].frame().start(),
    decreases actions.len(),
{
    let rest = actions.drop_last();
    if m < mapper::flushed(rest).len() {
        let k = lemma_flushed_is_action(rest, m);
        assert(rest[k] == actions[k]);
        k
    } else {
        actions.len() - 1
    }
}

proof fn lemma_flushed_in_order(actions: Seq<PageMappingAction>)
    requires
        forall|k: int, l: int|
            0 <= k < l < actions.len() && !((#[trigger] actions[k]) is ReserveFrame) && !((
            #[trigger] actions[l]) is ReserveFrame) ==> actions[k].frame().end()
                <= actions[l].frame().start(),
    ensures
        forall|m: int, n: int|
            0 <= m < n < mapper::flushed(actions).len() ==> (#[trigger] mapper::flushed(actions)[m])
                < (#[trigger] mapper::flushed(actions)[n]),
    decreases actions.len(),
{
    if actions.len() > 0 {
        let rest = actions.drop_last();
        assert forall|k: int, l: int|
            0 <= k < l < rest.len() && !((#[trigger] rest[k]) is ReserveFrame) && !((
            #[trigger] rest[l]) is ReserveFrame) implies rest[k].frame().end()
            <= rest[l].frame().start() by {
            assert(rest[k] == actions[k] && rest[l] == actions[l]);
        }
        lemma_flushed_in_order(rest);
        let all = mapper::flushed(actions);
        assert forall|m: int, n: int| 0 <= m < n < all.len() implies (#[trigger] all[m]) < (
        #[trigger] all[n]) by {
            if n == mapper::flushed(rest).len() {
                let k = lemma_flushed_is_action(rest, m);
                assert(rest[k] == actions[k]);
                assert(actions[actions.len() - 1] == actions.last());
            }
        }
    }
}

/// The addresses that are added for a mapped range are starts of pages of the range, each
/// higher than the one before.
proof fn lemma_flushed_of_zone(zone: Zone, max: u64, map: bool)
    requires
        zone.wf(max),
    ensures
        ({
            let added = mapper::flushed(
                mapper::actions_for(zone.elements, zone.range.addr as int, map),
            );
            &&& forall|m: int|
                0 <= m < added.len() ==> zone.range.addr <= (#[trigger] added[m]) < zone.range.addr
                    + zone.range.size && added[m] % 4096 == 0
            &&& forall|m: int, n: int|
                0 <= m < n < added.len() ==> (#[trigger] added[m]) < (#[trigger] added[n])
        }),
{
    let actions = mapper::actions_for(zone.elements, zone.range.addr as int, map);
    let added = mapper::flushed(actions);
    mapping::lemma_layout_actions(zone.elements, zone.range.addr as int, map);
    lemma_flushed_in_order(actions);
    assert forall|m: int| 0 <= m < added.len() implies zone.range.addr <= (#[trigger] added[m])
        < zone.range.addr + zone.range.size && added[m] % 4096 == 0 by {
        let k = lemma_flushed_is_action(actions, m);
        assert(mapping::lies_in(actions[k], zone.range.addr as int, zone.range.end()));
        lemma_starts_whole(actions[k].frame().start() as int, actions[k].frame().page());
    }
}

proof fn lemma_starts_whole(start: int, page: PageSize)
    requires
        start % (page.bytes() as int) == 0,
    ensures
        start % 4096 == 0,
{
    match page {
        PageSize::K4 => {},
        PageSize::M2 => {
            assert(start % 0x20_0000 == 0 ==> start % 4096 == 0);
        },
        PageSize::G1 => {
            assert(start % 0x4000_0000 == 0 ==> start % 4096 == 0);
        },
    }
}

/// The page that an address lies in is among those whose starts are added, whether the range
/// is mapped or unmapped.
proof fn lemma_page_is_flushed<T: FrameAllocator>(
    mapper: VirtMapper<T>,
    i: int,
    j: int,
    a: u64,
    map: bool,
) -> (m: int)
    requires
        mapper.wf(),
        0 <= i < mapper.zones().len(),
        0 <= j < translate::pieces_of(mapper.zones()[i]).len(),
        !translate::pieces_of(mapper.zones()[i])[j].reserved,
        translate::pieces_of(mapper.zones()[i])[j].virt_zone.holds(a),
    ensures
        ({
            let zone = mapper.zones()[i];
            let added = mapper::flushed(
                mapper::actions_for(zone.elements, zone.range.addr as int, map),
            );
            &&& translate::page_of(mapper.pages(), a) matches Some((path, page)) && added[m] == a - a
                % page.bytes()
            &&& 0 <= m < added.len()
        }),
{
    let zone = mapper.zones()[i];
    assert(zone.wf(mapper.max()));
    let maps = mapper::actions_for(zone.elements, zone.range.addr as int, true);
    let acts = mapper::actions_for(zone.elements, zone.range.addr as int, map);
    let k = translate::lemma_action_at(zone, mapper.max(), j, a);
    assert(mapper::zone_mapped(mapper.pages(), zone));
    assert(mapper::page_holds(mapper.pages(), maps[k]));
    mapping::lemma_same_pages(zone.elements, zone.range.addr as int);
    assert(acts[k].frame() == maps[k].frame() && !(acts[k] is ReserveFrame));
    translate::lemma_page_of(mapper.tables(), mapper.root(), maps[k].frame(), a);
    lemma_offset(maps[k].frame().start() as int, a as int, maps[k].frame().page());
    lemma_action_is_flushed(acts, k)
}

proof fn lemma_offset(start: int, a: int, page: PageSize)
    requires
        start % (page.bytes() as int) == 0,
        start <= a < start + page.bytes(),
    ensures
        a % (page.bytes() as int) == a - start,
{
    match page {
        PageSize::K4 => {
            assert(a % 0x1000 == a - start);
        },
        PageSize::M2 => {
            assert(a % 0x20_0000 == a - start);
        },
        PageSize::G1 => {
            assert(a % 0x4000_0000 == a - start);
        },
    }
}

proof fn lemma_piece_at(zone: Zone, max: u64, j: int)
    requires
        zone.wf(max),
        0 <= j < zone.elements.len(),
        zone.elements[j].flags.spec_present(),
        !(zone.elements[j].phys_data is Empty),
    ensures
        j < translate::pieces_of(zone).len(),
        !translate::pieces_of(zone)[j].reserved,
        translate::pieces_of(zone)[j].virt_zone.addr == zone.range.addr
            + zone.elements.take(j).fold_left(
            0int,
            |sum: int, piece: VirtLayoutElement| sum + piece.map_size,
        ),
        translate::pieces_of(zone)[j].virt_zone.size == zone.elements[j].map_size,
{
    layout::lemma_total_is_sum(zone.elements.take(j));
    mapping::lemma_zones_from(zone.elements, zone.range.addr as int, true);
    assert(translate::pieces_of(zone)[j] == mapping::zone_of(
        zone.elements[j],
        zone.range.addr + layout::total(zone.elements.take(j)),
        true,
    ));
}

/// A layout that is mapped somewhere takes a range of its size that lies behind the null page
/// and before the end of the address space and overlaps no mapped range. No lower range does
/// as well, and where the layout is not mapped there is none, or the layout has no size. The
/// range is put among the mapped ones with the pieces and the type of the layout.
pub proof fn lemma_mapped_layout<T: FrameAllocator>(
    mapper: &mut VirtMapper<T>,
    phys_zones: VirtLayout,
    flush: &mut Vec<u64>,
    result: Result<VirtRange, MapError>,
    other: u64,
)
    requires
        old(mapper).wf(),
        call_ensures(VirtMapper::<T>::map, (mapper, phys_zones, flush), result),
    ensures
        ({
            let zones = old(mapper).zones();
            let size = phys_zones.data@.fold_left(
                0int,
                |sum: int, piece: VirtLayoutElement| sum + piece.map_size,
            );
            &&& result == Err::<VirtRange, MapError>(MapError::ZeroSize) <==> size == 0
            &&& result matches Err(e) ==> {
                &&& e is ZeroSize || e is NoSpace
                &&& *final(mapper) == *old(mapper)
                &&& final(flush)@ == old(flush)@
            }
            &&& result matches Ok(range) ==> {
                &&& range.size == size
                &&& range.addr >= 4096
                &&& range.addr + range.size <= old(mapper).max()
                &&& forall|i: int|
                    #![trigger zones[i]]
                    0 <= i < zones.len() ==> zones[i].range.addr + zones[i].range.size
                        <= range.addr || range.addr + range.size <= zones[i].range.addr
                &&& exists|p: int|
                    0 <= p <= zones.len() && final(mapper).zones() == #[trigger] zones.insert(
                        p,
                        Zone {
                            range,
                            elements: phys_zones.data@,
                            alloc_type: phys_zones.alloc_type,
                        },
                    )
                &&& final(mapper).max() == old(mapper).max()
                &&& final(mapper).root_entry() == old(mapper).root_entry()
            }
            &&& size > 0 && other >= 4096 && other + size <= old(mapper).max() && (forall|i: int|
                #![trigger zones[i]]
                0 <= i < zones.len() ==> zones[i].range.addr + zones[i].range.size <= other || other
                    + size <= zones[i].range.addr) ==> (result matches Ok(range) && range.addr
                <= other)
        }),
{
    let zones = old(mapper).zones();
    let max = old(mapper).max();
    let size = layout::total(phys_zones.data@);
    layout::lemma_total_is_sum(phys_zones.data@);
    layout::lemma_total_nonneg(phys_zones.data@);
    if result is Ok {
        let range = result->Ok_0;
        assert forall|i: int|
            #![trigger zones[i]]
            0 <= i < zones.len() implies zones[i].range.addr + zones[i].range.size <= range.addr
            || range.addr + range.size <= zones[i].range.addr by {
            assert(range.disjoint(zones[i].range));
        }
        mapper::lemma_slot(zones, max, range);
        let p = mapper::slot(zones, range);
        assert(final(mapper).zones() == zones.insert(
            p,
            Zone { range, elements: phys_zones.data@, alloc_type: phys_zones.alloc_type },
        ));
    }
    if size > 0 && other >= 4096 && other + size <= max && (forall|i: int|
        #![trigger zones[i]]
        0 <= i < zones.len() ==> zones[i].range.addr + zones[i].range.size <= other || other + size
            <= zones[i].range.addr) {
        let low = VirtRange { addr: other, size: size as u64 };
        assert(mapper::fits(zones, max, low));
        assert(result is Ok);
        assert(mapper::is_lowest_fit(zones, max, result->Ok_0));
    }
}

/// Once a layout is mapped, every address of one of its pieces that may be accessed leads to
/// the byte of the piece's memory that lies as far from the start, and allows what the mapping
/// allows. The start of its page is among the addresses that the processor has to forget.
pub proof fn lemma_mapped_layout_is_there<T: FrameAllocator>(
    mapper: &mut VirtMapper<T>,
    phys_zones: VirtLayout,
    flush: &mut Vec<u64>,
    range: VirtRange,
    j: int,
    allowed: PageMappingFlags,
    start: int,
    phys: u64,
    a: u64,
)
    requires
        old(mapper).wf(),
        call_ensures(
            VirtMapper::<T>::map,
            (mapper, phys_zones, flush),
            Ok::<VirtRange, MapError>(range),
        ),
        0 <= j < phys_zones.data@.len(),
        call_ensures(PageTableFlags::from_mapping_flags, (allowed,), phys_zones.data@[j].flags),
        allowed.bits & 7 != 0,
        match phys_zones.data@[j].phys_data {
            VirtLayoutElementType::Mem(mem) => phys == mem.addr && mem.addr + mem.size
                <= 0x10_0000_0000_0000,
            VirtLayoutElementType::AllocedMem(m) => phys == m.phys && m.phys + m.len
                <= 0x10_0000_0000_0000,
            VirtLayoutElementType::Empty(_) => false,
        },
        start == range.addr + phys_zones.data@.take(j).fold_left(
            0int,
            |sum: int, piece: VirtLayoutElement| sum + piece.map_size,
        ),
        start <= a < start + phys_zones.data@[j].map_size,
    ensures
        translate::translate(final(mapper).pages(), a) == Some(phys + (a - start)),
        translate::access(final(mapper).pages(), a) matches Some(bits) && {
            &&& bits & 1 != 0
            &&& bits & 2 != 0 <==> allowed.bits & 2 != 0
            &&& bits & 4 != 0 <==> allowed.bits & 8 != 0
            &&& bits & 0x8000_0000_0000_0000 != 0 <==> allowed.bits & 4 == 0
        },
        final(flush)@.take(old(flush)@.len() as int) == old(flush)@,
        exists|m: int|
            old(flush)@.len() <= m < final(flush)@.len() && #[trigger] final(flush)@[m] == a - a
                % (translate::page_of(final(mapper).pages(), a)->0).1.bytes(),
{
    let after = *final(mapper);
    let p = mapper::slot(old(mapper).zones(), range);
    mapper::lemma_slot(old(mapper).zones(), old(mapper).max(), range);
    let zone = after.zones()[p];
    assert(zone.range == range && zone.elements == phys_zones.data@);
    assert(zone.wf(after.max()));
    lemma_access_of_mapped_address(after, p, j, allowed, start, phys, a);
    flags::lemma_mapping_bit_by_bit(allowed);
    flags::lemma_low_bits(allowed.bits);
    flags::lemma_low_bits(zone.elements[j].flags.bits);
    lemma_piece_at(zone, after.max(), j);
    let m = lemma_page_is_flushed(after, p, j, a, true);
    let added = mapper::flushed(mapper::actions_for(zone.elements, zone.range.addr as int, true));
    assert(final(flush)@ == old(flush)@ + added);
    assert(final(flush)@.take(old(flush)@.len() as int) =~= old(flush)@);
    assert(final(flush)@[old(flush)@.len() + m] == added[m]);
}

/// A layout that is mapped at a range takes the pages of the range. It is refused where its
/// size is not theirs, where it has no size, and where the pages do not lie behind the null
/// page and before the end of the address space or overlap a mapped range.
pub proof fn lemma_mapped_layout_at<T: FrameAllocator>(
    mapper: &mut VirtMapper<T>,
    phys_zones: VirtLayout,
    range: VirtRange,
    flush: &mut Vec<u64>,
    result: Result<VirtRange, MapError>,
    low: int,
    high: int,
)
    requires
        old(mapper).wf(),
        range.addr + range.size + 4095 <= u64::MAX,
        call_ensures(VirtMapper::<T>::map_at, (mapper, phys_zones, range, flush), result),
        low == range.addr - range.addr % 4096,
        high == (range.addr + range.size + 4095) - (range.addr + range.size + 4095) % 4096,
    ensures
        ({
            let zones = old(mapper).zones();
            let size = phys_zones.data@.fold_left(
                0int,
                |sum: int, piece: VirtLayoutElement| sum + piece.map_size,
            );
            let free = low >= 4096 && high <= old(mapper).max() && forall|i: int|
                #![trigger zones[i]]
                0 <= i < zones.len() ==> zones[i].range.addr + zones[i].range.size <= low || high
                    <= zones[i].range.addr;
            &&& result is Err ==> *final(mapper) == *old(mapper) && final(flush)@ == old(flush)@
            &&& match result {
                Ok(at) => {
                    &&& size == high - low
                    &&& size > 0
                    &&& free
                    &&& at.addr == low
                    &&& at.size == size
                    &&& exists|p: int|
                        0 <= p <= zones.len() && final(mapper).zones() == #[trigger] zones.insert(
                            p,
                            Zone {
                                range: at,
                                elements: phys_zones.data@,
                                alloc_type: phys_zones.alloc_type,
                            },
                        )
                },
                Err(MapError::SizeMismatch) => size != high - low,
                Err(MapError::ZeroSize) => size == high - low && size == 0,
                Err(MapError::InvalidZone) => size == high - low && size > 0 && !free,
                Err(MapError::NoSpace) => false,
                Err(MapError::NotMapped) => false,
            }
        }),
{
    let zones = old(mapper).zones();
    let max = old(mapper).max();
    let free = low >= 4096 && high <= max && forall|i: int|
        #![trigger zones[i]]
        0 <= i < zones.len() ==> zones[i].range.addr + zones[i].range.size <= low || high
            <= zones[i].range.addr;
    layout::lemma_total_is_sum(phys_zones.data@);
    layout::lemma_total_nonneg(phys_zones.data@);
    match result {
        Ok(at) => {
            lemma_cover_is_pages(at, range, low, high);
            assert forall|i: int|
                #![trigger zones[i]]
                0 <= i < zones.len() implies zones[i].range.addr + zones[i].range.size <= low
                || high <= zones[i].range.addr by {
                assert(at.disjoint(zones[i].range));
            }
            mapper::lemma_slot(zones, max, at);
            let p = mapper::slot(zones, at);
            assert(final(mapper).zones() == zones.insert(
                p,
                Zone { range: at, elements: phys_zones.data@, alloc_type: phys_zones.alloc_type },
            ));
        },
        Err(e) => {
            let cover = choose|cover: VirtRange|
                #![trigger cover.is_page_cover(range)]
                cover.is_page_cover(range) && e == if cover.size != layout::total(
                    phys_zones.data@,
                ) {
                    MapError::SizeMismatch
                } else if cover.size == 0 {
                    MapError::ZeroSize
                } else {
                    MapError::InvalidZone
                } && (e == MapError::InvalidZone ==> !mapper::fits(zones, max, cover));
            lemma_cover_is_pages(cover, range, low, high);
            if free {
                assert(mapper::fits(zones, max, cover));
            }
        },
    }
}

proof fn lemma_cover_is_pages(cover: VirtRange, range: VirtRange, low: int, high: int)
    requires
        cover.is_page_cover(range),
        low == range.addr - range.addr % 4096,
        high == (range.addr + range.size + 4095) - (range.addr + range.size + 4095) % 4096,
    ensures
        cover.addr == low,
        cover.addr + cover.size == high,
{
}

/// A range is unmapped where it is mapped as a whole. Then it is no longer among the mapped
/// ranges, the others stay, and its layout comes back with the pieces and the type that it
/// was mapped with, none of it mapped. Any other range is refused, and nothing changes.
pub proof fn lemma_unmapped_range<T: FrameAllocator>(
    mapper: &mut VirtMapper<T>,
    range: VirtRange,
    flush: &mut Vec<u64>,
    result: Result<VirtLayout, MapError>,
)
    requires
        old(mapper).wf(),
        call_ensures(VirtMapper::<T>::unmap, (mapper, range, flush), result),
    ensures
        ({
            let zones = old(mapper).zones();
            &&& result is Ok <==> exists|i: int|
                0 <= i < zones.len() && (#[trigger] zones[i]).range == range
            &&& result matches Ok(phys_zones) ==> {
                &&& exists|i: int|
                    0 <= i < zones.len() && (#[trigger] zones[i]).range == range
                        && phys_zones.data@ == zones[i].elements && phys_zones.alloc_type
                        == zones[i].alloc_type && final(mapper).zones() == zones.remove(i)
                &&& phys_zones.dirty_index == 0
                &&& phys_zones.clean_size == 0
                &&& phys_zones.dealloc_que@.len() == 0
                &&& final(mapper).max() == old(mapper).max()
                &&& final(mapper).root_entry() == old(mapper).root_entry()
            }
            &&& result matches Err(e) ==> {
                &&& e is NotMapped
                &&& *final(mapper) == *old(mapper)
                &&& final(flush)@ == old(flush)@
            }
        }),
{
    let zones = old(mapper).zones();
    if result is Ok {
        let p = mapper::slot(zones, range);
        assert(zones[p].range == range);
    }
}

/// Once a range is unmapped, no user address of it leads anywhere. An address that lies in no
/// mapped range of user addresses never does.
pub proof fn lemma_unmapped_range_is_gone<T: FrameAllocator>(
    mapper: &mut VirtMapper<T>,
    range: VirtRange,
    flush: &mut Vec<u64>,
    phys_zones: VirtLayout,
    a: u64,
)
    requires
        old(mapper).wf(),
        call_ensures(
            VirtMapper::<T>::unmap,
            (mapper, range, flush),
            Ok::<VirtLayout, MapError>(phys_zones),
        ),
        a < 0x8000_0000_0000,
        range.addr <= a < range.addr + range.size,
    ensures
        translate::translate(final(mapper).pages(), a) is None,
        translate::access(final(mapper).pages(), a) is None,
{
    let zones = old(mapper).zones();
    let p = mapper::slot(zones, range);
    let after = *final(mapper);
    assert(zones[p].range == range);
    assert(after.zones() == zones.remove(p));
    assert forall|i: int| 0 <= i < after.zones().len() implies !(
    #[trigger] after.zones()[i]).range.holds(a) by {
        let k = if i < p { i } else { i + 1 };
        assert(after.zones()[i] == zones[k]);
        if k < p {
            assert(zones[k].range.end() <= zones[p].range.addr);
        } else {
            assert(zones[p].range.end() <= zones[k].range.addr);
        }
    }
    translate::lemma_free_address_leads_nowhere(after, a);
}

/// The processor has to forget the page of every address at which an unmapped range mapped
/// memory.
pub proof fn lemma_unmapped_range_is_forgotten<T: FrameAllocator>(
    mapper: &mut VirtMapper<T>,
    range: VirtRange,
    flush: &mut Vec<u64>,
    phys_zones: VirtLayout,
    j: int,
    a: u64,
)
    requires
        old(mapper).wf(),
        call_ensures(
            VirtMapper::<T>::unmap,
            (mapper, range, flush),
            Ok::<VirtLayout, MapError>(phys_zones),
        ),
        0 <= j < phys_zones.data@.len(),
        phys_zones.data@[j].flags.bits & 1 != 0,
        !(phys_zones.data@[j].phys_data is Empty),
        ({
            let start = range.addr + phys_zones.data@.take(j).fold_left(
                0int,
                |sum: int, piece: VirtLayoutElement| sum + piece.map_size,
            );
            start <= a < start + phys_zones.data@[j].map_size
        }),
    ensures
        final(flush)@.take(old(flush)@.len() as int) == old(flush)@,
        exists|m: int|
            old(flush)@.len() <= m < final(flush)@.len() && #[trigger] final(flush)@[m] == a - a
                % (translate::page_of(old(mapper).pages(), a)->0).1.bytes(),
{
    let before = *old(mapper);
    let p = mapper::slot(before.zones(), range);
    let zone = before.zones()[p];
    assert(zone.range == range && zone.elements == phys_zones.data@);
    assert(zone.wf(before.max()));
    flags::lemma_low_bits(zone.elements[j].flags.bits);
    lemma_piece_at(zone, before.max(), j);
    let m = lemma_page_is_flushed(before, p, j, a, false);
    let added = mapper::flushed(mapper::actions_for(zone.elements, zone.range.addr as int, false));
    assert(final(flush)@ == old(flush)@ + added);
    assert(final(flush)@.take(old(flush)@.len() as int) =~= old(flush)@);
    assert(final(flush)@[old(flush)@.len() + m] == added[m]);
}

/// What the processor has to forget after a range was mapped or unmapped are starts of pages
/// of that range, none of them twice.
pub proof fn lemma_only_own_pages_are_forgotten<T: FrameAllocator>(
    mapper: &mut VirtMapper<T>,
    phys_zones: VirtLayout,
    flush: &mut Vec<u64>,
    range: VirtRange,
    unmapper: &mut VirtMapper<T>,
    unflush: &mut Vec<u64>,
    unmapped: VirtLayout,
    m: int,
    n: int,
)
    requires
        old(mapper).wf(),
        old(unmapper).wf(),
        call_ensures(
            VirtMapper::<T>::map,
            (mapper, phys_zones, flush),
            Ok::<VirtRange, MapError>(range),
        ),
        call_ensures(
            VirtMapper::<T>::unmap,
            (unmapper, range, unflush),
            Ok::<VirtLayout, MapError>(unmapped),
        ),
    ensures
        old(flush)@.len() <= m < final(flush)@.len() ==> range.addr <= final(flush)@[m] < range.addr
            + range.size && final(flush)@[m] % 4096 == 0,
        old(unflush)@.len() <= m < final(unflush)@.len() ==> range.addr <= final(unflush)@[m]
            < range.addr + range.size && final(unflush)@[m] % 4096 == 0,
        old(flush)@.len() <= m < n < final(flush)@.len() ==> final(flush)@[m] < final(flush)@[n],
        old(unflush)@.len() <= m < n < final(unflush)@.len() ==> final(unflush)@[m]
            < final(unflush)@[n],
{
    let after = *final(mapper);
    let p = mapper::slot(old(mapper).zones(), range);
    mapper::lemma_slot(old(mapper).zones(), old(mapper).max(), range);
    let zone = after.zones()[p];
    assert(zone.range == range && zone.elements == phys_zones.data@);
    assert(zone.wf(after.max()));
    lemma_flushed_of_zone(zone, after.max(), true);
    let added = mapper::flushed(mapper::actions_for(zone.elements, zone.range.addr as int, true));
    assert(final(flush)@ == old(flush)@ + added);
    let before = *old(unmapper);
    let gone = before.zones()[mapper::slot(before.zones(), range)];
    assert(gone.wf(before.max()));
    lemma_flushed_of_zone(gone, before.max(), false);
    let taken = mapper::flushed(mapper::actions_for(gone.elements, gone.range.addr as int, false));
    assert(final(unflush)@ == old(unflush)@ + taken);
    if old(flush)@.len() <= m < final(flush)@.len() {
        assert(final(flush)@[m] == added[m - old(flush)@.len()]);
        if m < n < final(flush)@.len() {
            assert(final(flush)@[n] == added[n - old(flush)@.len()]);
        }
    }
    if old(unflush)@.len() <= m < final(unflush)@.len() {
        assert(final(unflush)@[m] == taken[m - old(unflush)@.len()]);
        if m < n < final(unflush)@.len() {
            assert(final(unflush)@[n] == taken[n - old(unflush)@.len()]);
        }
    }
}

/// A new address space maps nothing but the kernel's half, to which the last entry of its
/// root table refers. It holds addresses up to the end that it was made with. The root table
/// is the only one that is made for it, and counts one entry more than it has.
pub proof fn lemma_new_space<T: FrameAllocator>(
    frame_allocer: T,
    mem: PageMemory,
    higher_half: PageTablePointer,
    max_map_addr: u64,
    mapper: VirtMapper<T>,
    i: int,
    a: u64,
)
    requires
        call_ensures(
            VirtMapper::<T>::new,
            (frame_allocer, mem, higher_half, max_map_addr),
            mapper,
        ),
        0 <= i < 512,
        a < 0x8000_0000_0000,
    ensures
        mapper.zones().len() == 0,
        mapper.max() == max_map_addr,
        mapper.tables()[mapper.root()].entries@[i].0 & 0x800f_ffff_ffff_ffff == if i == 511 {
            higher_half.0 & 0x800f_ffff_ffff_ffff
        } else {
            0
        },
        mapper.root_entry() == mapper.root() | 1,
        (mapper.tables()[mapper.root()].entries@[0].0 as int / 0x10_0000_0000_0000) % 2048 == 2,
        mapper.tables().dom() == mem@.dom().insert(mapper.root()),
        !frame_allocer.live().contains_key(mapper.root()),
        mapper.frame_allocator().live().dom() == frame_allocer.live().dom().insert(mapper.root()),
        mapper.frame_allocator().returned() == frame_allocer.returned(),
        translate::translate(mapper.pages(), a) is None,
{
    assert(mapper.tables().dom() =~= mem@.dom().insert(mapper.root()));
    assert(mapper.frame_allocator().live().dom() =~= frame_allocer.live().dom().insert(
        mapper.root(),
    ));
    assert(page_table::strip(0) == 0) by {
        lemma_no_bits();
    }
    let e = walk::entry(mapper.tables(), mapper.root(), i);
    assert(page_table::strip(e) == page_table::strip(
        if i == 511 {
            higher_half.0
        } else {
            0
        },
    ));
    translate::lemma_free_address_leads_nowhere(mapper, a);
}

proof fn lemma_no_bits()
    by (bit_vector)
    ensures
        0u64 & 0x800f_ffff_ffff_ffff == 0,
{
}

proof fn lemma_owned_in_order_of_ranges(zones: Seq<Zone>)
    ensures
        mapper::owned_in(zones) == zones.map_values(
            |zone: Zone|
                zone.elements.filter(
                    |piece: VirtLayoutElement| piece.phys_data is AllocedMem,
                ).map_values(|piece: VirtLayoutElement| piece.phys_data->AllocedMem_0),
        ).flatten_alt(),
    decreases zones.len(),
{
    let parts = zones.map_values(
        |zone: Zone|
            zone.elements.filter(
                |piece: VirtLayoutElement| piece.phys_data is AllocedMem,
            ).map_values(|piece: VirtLayoutElement| piece.phys_data->AllocedMem_0),
    );
    if zones.len() > 0 {
        lemma_owned_in_order_of_ranges(zones.drop_last());
        layout::lemma_owned_in_order(zones.last().elements);
        assert(parts.drop_last() =~= zones.drop_last().map_values(
            |zone: Zone|
                zone.elements.filter(
                    |piece: VirtLayoutElement| piece.phys_data is AllocedMem,
                ).map_values(|piece: VirtLayoutElement| piece.phys_data->AllocedMem_0),
        ));
        assert(parts.last() == layout::owned_by(zones.last().elements));
    }
}

/// What is handed back with an address space comes in the order of the mapped ranges, and for
/// each of them in the order of its pieces.
pub proof fn lemma_released_memory_in_order<T: FrameAllocator>(
    mapper: &mut VirtMapper<T>,
    mem: Vec<Allocation>,
)
    requires
        call_ensures(VirtMapper::<T>::release, (mapper,), mem),
    ensures
        mem@ == old(mapper).zones().map_values(
            |zone: Zone|
                zone.elements.filter(
                    |piece: VirtLayoutElement| piece.phys_data is AllocedMem,
                ).map_values(|piece: VirtLayoutElement| piece.phys_data->AllocedMem_0),
        ).flatten_alt(),
{
    lemma_owned_in_order_of_ranges(old(mapper).zones());
}

/// An address at which a layout maps no memory is not touched where the layout is mapped.
pub proof fn lemma_map_leaves_the_rest<T: FrameAllocator>(
    mapper: &mut VirtMapper<T>,
    phys_zones: VirtLayout,
    flush: &mut Vec<u64>,
    range: VirtRange,
    a: u64,
)
    requires
        old(mapper).wf(),
        mapping::ready(phys_zones),
        call_ensures(
            VirtMapper::<T>::map,
            (mapper, phys_zones, flush),
            Ok::<VirtRange, MapError>(range),
        ),
        range.addr + range.size <= 0x8000_0000_0000,
        a < 0x8000_0000_0000 || a >= 0xffff_8000_0000_0000,
        a < range.addr || a >= range.addr + range.size,
    ensures
        translate::translate(final(mapper).pages(), a) == translate::translate(
            old(mapper).pages(),
            a,
        ),
        translate::access(final(mapper).pages(), a) == translate::access(old(mapper).pages(), a),
{
    let elements = phys_zones.data@;
    mapper::lemma_free_is_clear(*old(mapper), elements, range);
    mapping::lemma_zones_from(elements, range.addr as int, true);
    translate::lemma_map_keeps_addresses(
        *old(mapper),
        *final(mapper),
        elements,
        phys_zones.alloc_type,
        range,
        old(flush)@,
        final(flush)@,
        a,
    );
}

/// An address outside a range is not touched where the range is unmapped.
pub proof fn lemma_unmap_leaves_the_rest<T: FrameAllocator>(
    mapper: &mut VirtMapper<T>,
    range: VirtRange,
    flush: &mut Vec<u64>,
    phys_zones: VirtLayout,
    a: u64,
)
    requires
        old(mapper).wf(),
        call_ensures(
            VirtMapper::<T>::unmap,
            (mapper, range, flush),
            Ok::<VirtLayout, MapError>(phys_zones),
        ),
        a < 0x8000_0000_0000 || a >= 0xffff_8000_0000_0000,
        a < range.addr || a >= range.addr + range.size,
    ensures
        translate::translate(final(mapper).pages(), a) == translate::translate(
            old(mapper).pages(),
            a,
        ),
        translate::access(final(mapper).pages(), a) == translate::access(old(mapper).pages(), a),
{
    let before = *old(mapper);
    let p = mapper::slot(before.zones(), range);
    let zone = before.zones()[p];
    assert(zone.wf(before.max()));
    mapping::lemma_zones_from(zone.elements, zone.range.addr as int, true);
    translate::lemma_unmap_keeps_addresses(
        before,
        *final(mapper),
        p,
        old(flush)@,
        final(flush)@,
        a,
    );
}

/// The mapped ranges take whole pages behind the null page and before the end of the address
/// space, as many as their pieces take together, and lie one behind the other.
pub proof fn lemma_mapped_ranges<T: FrameAllocator>(mapper: VirtMapper<T>, i: int, j: int)
    requires
        mapper.wf(),
        0 <= i < mapper.zones().len(),
    ensures
        ({
            let zone = mapper.zones()[i];
            &&& zone.range.size > 0
            &&& zone.range.addr >= 4096
            &&& zone.range.addr % 4096 == 0
            &&& zone.range.size % 4096 == 0
            &&& zone.range.addr + zone.range.size <= mapper.max()
            &&& zone.range.size == zone.elements.fold_left(
                0int,
                |sum: int, piece: VirtLayoutElement| sum + piece.map_size,
            )
            &&& i < j < mapper.zones().len() ==> zone.range.addr + zone.range.size
                <= mapper.zones()[j].range.addr
        }),
{
    assert(mapper.zones()[i].wf(mapper.max()));
    layout::lemma_total_is_sum(mapper.zones()[i].elements);
    if i < j < mapper.zones().len() {
        assert(mapper.zones()[i].range.end() <= mapper.zones()[j].range.addr);
    }
}

/// Taking page tables from another allocator changes nothing else, and the page tables that
/// are told are those of the address space.
pub proof fn lemma_other_allocator<T: FrameAllocator>(
    mapper: &mut VirtMapper<T>,
    frame_allocer: T,
    mem: &PageMemory,
)
    requires
        call_ensures(VirtMapper::<T>::set_frame_allocator, (mapper, frame_allocer), ()),
        call_ensures(VirtMapper::<T>::memory, (&*final(mapper),), mem),
    ensures
        final(mapper).frame_allocator() == frame_allocer,
        final(mapper).zones() == old(mapper).zones(),
        final(mapper).root_entry() == old(mapper).root_entry(),
        final(mapper).max() == old(mapper).max(),
        mem@ == old(mapper).tables(),
{
}

/// Where a layout can be mapped at a range, the range holds addresses alone, and no address
/// at which the layout maps memory leads anywhere yet. Below the kernel's half, it can be
/// mapped wherever no mapped range is in the way. Where it cannot be mapped though the range
/// holds addresses alone, the walk to a page of the range is not free.
pub proof fn lemma_clear_range<T: FrameAllocator>(
    mapper: VirtMapper<T>,
    phys_zones: VirtLayout,
    range: VirtRange,
    clear: bool,
    j: int,
    a: u64,
)
    requires
        mapper.wf(),
        mapping::ready(phys_zones),
        layout::total(phys_zones.data@) == range.size,
        range.size > 0,
        range.addr % 4096 == 0,
        range.addr >= 4096,
        range.addr + range.size <= mapper.max(),
        call_ensures(VirtMapper::<T>::is_clear_at, (&mapper, &phys_zones, range), clear),
    ensures
        clear ==> range.addr + range.size <= 0x8000_0000_0000 || range.addr
            >= 0xffff_8000_0000_0000,
        clear && 0 <= j < phys_zones.data@.len() && phys_zones.data@[j].flags.bits & 1 != 0 && !(
        phys_zones.data@[j].phys_data is Empty) && ({
            let start = range.addr + phys_zones.data@.take(j).fold_left(
                0int,
                |sum: int, piece: VirtLayoutElement| sum + piece.map_size,
            );
            start <= a < start + phys_zones.data@[j].map_size
        }) ==> translate::translate(mapper.pages(), a) is None,
        (range.addr + range.size <= 0x8000_0000_0000 || range.addr >= 0xffff_8000_0000_0000)
            && range.addr + range.size <= 0xffff_ff80_0000_0000 && (forall|i: int|
            #![trigger mapper.zones()[i]]
            0 <= i < mapper.zones().len() ==> mapper.zones()[i].range.addr
                + mapper.zones()[i].range.size <= range.addr || range.addr + range.size
                <= mapper.zones()[i].range.addr) ==> clear,
        (range.addr + range.size <= 0x8000_0000_0000 || range.addr >= 0xffff_8000_0000_0000)
            && !clear ==> exists|f: u64, d: int|
            range.addr <= f < range.addr + range.size && 2 <= d <= 4 && !walk::path_free(
                mapper.tables(),
                mapper.root(),
                #[trigger] walk::path_of(f, d),
            ),
{
    let elements = phys_zones.data@;
    if (range.addr + range.size <= 0x8000_0000_0000 || range.addr >= 0xffff_8000_0000_0000)
        && !clear {
        let actions = mapper::actions_for(elements, range.addr as int, true);
        mapping::lemma_layout_actions(elements, range.addr as int, true);
        let k = choose|k: int|
            0 <= k < actions.len() && !((#[trigger] actions[k]) is ReserveFrame)
                && !walk::path_free(
                mapper.tables(),
                mapper.root(),
                mapping::frame_path(actions[k].frame()),
            );
        let frame = actions[k].frame();
        assert(mapping::lies_in(actions[k], range.addr as int, range.end()));
        assert(!walk::path_free(
            mapper.tables(),
            mapper.root(),
            walk::path_of(frame.start(), mapping::depth_of(frame.page())),
        ));
    }
    if (range.addr + range.size <= 0x8000_0000_0000 || range.addr >= 0xffff_8000_0000_0000)
        && range.addr + range.size <= 0xffff_ff80_0000_0000 && (forall|i: int|
        #![trigger mapper.zones()[i]]
        0 <= i < mapper.zones().len() ==> mapper.zones()[i].range.addr
            + mapper.zones()[i].range.size <= range.addr || range.addr + range.size
            <= mapper.zones()[i].range.addr) {
        assert(mapper::fits(mapper.zones(), mapper.max(), range));
        mapper::lemma_free_is_clear(mapper, elements, range);
    }
    if clear && 0 <= j < elements.len() && elements[j].flags.bits & 1 != 0 && !(
    elements[j].phys_data is Empty) && ({
        let start = range.addr + elements.take(j).fold_left(
            0int,
            |sum: int, piece: VirtLayoutElement| sum + piece.map_size,
        );
        start <= a < start + elements[j].map_size
    }) {
        let zone = Zone { range, elements, alloc_type: phys_zones.alloc_type };
        lemma_whole_layout(elements);
        assert(zone.wf(mapper.max()));
        flags::lemma_low_bits(elements[j].flags.bits);
        lemma_piece_at(zone, mapper.max(), j);
        let k = translate::lemma_action_at(zone, mapper.max(), j, a);
        let actions = mapper::actions_for(elements, range.addr as int, true);
        let frame = actions[k].frame();
        translate::lemma_path_in_frame(frame, a);
        assert(walk::path_free(mapper.tables(), mapper.root(), mapping::frame_path(frame)));
        translate::lemma_free_path_leads_nowhere(
            mapper.tables(),
            mapper.root(),
            a,
            mapping::depth_of(frame.page()),
        );
    }
}

proof fn lemma_whole_layout(elements: Seq<VirtLayoutElement>)
    requires
        forall|i: int| 0 <= i < elements.len() ==> (#[trigger] elements[i]).wf(),
    ensures
        layout::total(elements) % 4096 == 0,
    decreases elements.len(),
{
    if elements.len() > 0 {
        let rest = elements.drop_last();
        assert forall|i: int| 0 <= i < rest.len() implies (#[trigger] rest[i]).wf() by {
            assert(rest[i] == elements[i]);
        }
        lemma_whole_layout(rest);
        assert(elements[elements.len() - 1].wf());
    }
}

/// Each error is told in its own words, and that a range was not mapped is not told.
pub proof fn lemma_told_errors(error: MapError, text: Option<&'static str>)
    requires
        call_ensures(MapError::message, (&error,), text),
    ensures
        text is None <==> error is NotMapped,
        error is ZeroSize ==> (text->0)@ == "tryed to map page of size zero"@,
        error is NoSpace ==> (text->0)@
            == "not enough space in virtual memory space for allocation"@,
        error is SizeMismatch ==> (text->0)@ == "phys_zones and virt_zone size did not match"@,
        error is InvalidZone ==> (text->0)@ == "invalid virt zone passed to map_at"@,
{
}

} // verus!
