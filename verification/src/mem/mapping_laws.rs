//! What holds of the pages that are handed out for a layout, said of what goes into a call
//! and what comes out.
use vstd::prelude::*;
use crate::mem::addr::{PageSize, PhysFrame, PhysRange, VirtFrame, VirtRange};
use crate::mem::flags;
use crate::mem::flags::PageTableFlags;
use crate::mem::layout;
use crate::mem::layout::{VirtLayout, VirtLayoutElement, VirtLayoutElementType};
use crate::mem::mapping;
use crate::mem::mapping::{is_ready, PageMappingAction, PageMappingIterator, Pmit};

verus! {

/// A layout can be handed to a mapper where nothing of it is mapped, its size is a number, and
/// each of its pieces and the memory behind it take whole pages that end at an address, has
/// only flags that an entry can hold and not the one for large pages, and maps all of its
/// memory where it may be accessed.
pub proof fn lemma_ready_layout(phys_zones: VirtLayout, ready: bool)
    requires
        call_ensures(is_ready, (&phys_zones,), ready),
    ensures
        ready <==> {
            &&& phys_zones.dirty_index == 0
            &&& phys_zones.clean_size == 0
            &&& phys_zones.dealloc_que@.len() == 0
            &&& phys_zones.data@.fold_left(
                0int,
                |sum: int, piece: VirtLayoutElement| sum + piece.map_size,
            ) <= u64::MAX
            &&& forall|i: int|
                0 <= i < phys_zones.data@.len() ==> {
                    let piece = #[trigger] phys_zones.data@[i];
                    &&& piece.map_size % 4096 == 0
                    &&& piece.flags.bits & 0x8000_0000_0000_01ff == piece.flags.bits
                    &&& piece.flags.bits & 0x80 == 0
                    &&& match piece.phys_data {
                        VirtLayoutElementType::Mem(mem) => {
                            &&& mem.addr % 4096 == 0
                            &&& mem.size % 4096 == 0
                            &&& mem.addr + mem.size <= u64::MAX
                            &&& piece.flags.bits & 1 != 0 ==> mem.size == piece.map_size
                        },
                        VirtLayoutElementType::AllocedMem(m) => {
                            &&& m.phys % 4096 == 0
                            &&& m.len % 4096 == 0
                            &&& m.phys + m.len <= u64::MAX
                            &&& piece.flags.bits & 1 != 0 ==> m.len == piece.map_size
                        },
                        VirtLayoutElementType::Empty(n) => n % 4096 == 0,
                    }
                }
        },
{
    layout::lemma_total_is_sum(phys_zones.data@);
    assert(phys_zones.data@.take(0) =~= Seq::empty());
    assert forall|i: int| 0 <= i < phys_zones.data@.len() implies {
        let piece = #[trigger] phys_zones.data@[i];
        (piece.wf() && piece.maps_whole() && (piece.zone() matches Some(range) ==> range.wf()))
            == ({
            &&& piece.map_size % 4096 == 0
            &&& piece.flags.bits & 0x8000_0000_0000_01ff == piece.flags.bits
            &&& piece.flags.bits & 0x80 == 0
            &&& match piece.phys_data {
                VirtLayoutElementType::Mem(mem) => {
                    &&& mem.addr % 4096 == 0
                    &&& mem.size % 4096 == 0
                    &&& mem.addr + mem.size <= u64::MAX
                    &&& piece.flags.bits & 1 != 0 ==> mem.size == piece.map_size
                },
                VirtLayoutElementType::AllocedMem(m) => {
                    &&& m.phys % 4096 == 0
                    &&& m.len % 4096 == 0
                    &&& m.phys + m.len <= u64::MAX
                    &&& piece.flags.bits & 1 != 0 ==> m.len == piece.map_size
                },
                VirtLayoutElementType::Empty(n) => n % 4096 == 0,
            }
        })
    } by {
        flags::lemma_low_bits(phys_zones.data@[i].flags.bits);
    }
    if ready {
        assert forall|i: int| 0 <= i < phys_zones.data@.len() implies (
        #[trigger] phys_zones.data@[i]).wf() && phys_zones.data@[i].maps_whole() by {}
    }
}

/// What is to be done is about the page that it names.
pub proof fn lemma_page_of_action(action: PageMappingAction, frame: VirtFrame)
    requires
        call_ensures(PageMappingAction::virt_frame, (&action,), frame),
    ensures
        action matches PageMappingAction::MapFrame(_, vframe, _) ==> frame == vframe,
        action matches PageMappingAction::UnmapFrame(vframe) ==> frame == vframe,
        action matches PageMappingAction::ReserveFrame(vframe) ==> frame == vframe,
{
}

/// A range of memory is mapped at a range of addresses with its flags. A range that is only
/// kept free has none.
pub proof fn lemma_new_ranges(
    phys_zone: PhysRange,
    virt_zone: VirtRange,
    flags: PageTableFlags,
    made: Pmit,
    kept: Pmit,
    present: bool,
)
    requires
        call_ensures(Pmit::new, (phys_zone, virt_zone, flags), made),
        call_ensures(Pmit::reserve, (virt_zone,), kept),
        call_ensures(Pmit::present, (&made,), present),
    ensures
        made.phys_zone == phys_zone,
        made.virt_zone == virt_zone,
        made.flags == flags,
        !made.reserved,
        kept.virt_zone == virt_zone,
        kept.phys_zone.size == virt_zone.size,
        kept.flags.bits == 0,
        kept.reserved,
        present <==> flags.bits & 1 != 0,
{
    flags::lemma_low_bits(flags.bits);
}

proof fn lemma_divided(n: u64)
    ensures
        n % 0x4000_0000 == 0 ==> n % 0x20_0000 == 0,
        n % 0x20_0000 == 0 ==> n % 0x1000 == 0,
{
    assert(n % 0x4000_0000 == 0 ==> n % 0x20_0000 == 0);
    assert(n % 0x20_0000 == 0 ==> n % 0x1000 == 0);
}

/// A page can be taken off two ranges where both start at a multiple of its size and are at
/// least as long. It starts where they did, and they then start behind it.
pub proof fn lemma_page_off_ranges(
    pmit: &mut Pmit,
    page: PageSize,
    size: u64,
    taken: Option<(PhysFrame, VirtFrame)>,
    starts: (u64, u64),
    largest: Option<PageSize>,
)
    requires
        old(pmit).phys_zone.size == old(pmit).virt_zone.size,
        old(pmit).phys_zone.addr + old(pmit).phys_zone.size <= u64::MAX,
        old(pmit).virt_zone.addr + old(pmit).virt_zone.size <= u64::MAX,
        call_ensures(PageSize::as_u64, (page,), size),
        call_ensures(Pmit::get_take_size, (&*old(pmit),), largest),
        call_ensures(Pmit::take, (pmit, page), taken),
        taken matches Some(t) ==> call_ensures(PhysFrame::start_addr, (&t.0,), starts.0)
            && call_ensures(VirtFrame::start_addr, (&t.1,), starts.1),
    ensures
        ({
            let fits = old(pmit).phys_zone.addr % size == 0 && old(pmit).virt_zone.addr % size == 0
                && size <= old(pmit).virt_zone.size;
            &&& taken is Some <==> fits
            &&& largest == Some(page) ==> fits
            &&& fits ==> (largest matches Some(l) && size <= l.bytes())
        }),
        taken is None ==> *final(pmit) == *old(pmit),
        taken is Some ==> {
            &&& starts.0 == old(pmit).phys_zone.addr
            &&& starts.1 == old(pmit).virt_zone.addr
            &&& final(pmit).phys_zone.addr == old(pmit).phys_zone.addr + size
            &&& final(pmit).virt_zone.addr == old(pmit).virt_zone.addr + size
            &&& final(pmit).phys_zone.size == old(pmit).phys_zone.size - size
            &&& final(pmit).virt_zone.size == old(pmit).virt_zone.size - size
            &&& final(pmit).flags == old(pmit).flags
            &&& final(pmit).reserved == old(pmit).reserved
        },
{
    lemma_divided(old(pmit).phys_zone.addr);
    lemma_divided(old(pmit).virt_zone.addr);
}

proof fn lemma_down(elements: Seq<VirtLayoutElement>, vaddr: int, k: int)
    requires
        0 <= k < elements.len(),
    ensures
        mapping::zones_down_from(elements, vaddr).len() == elements.len(),
        mapping::zones_down_from(elements, vaddr)[k] == mapping::zone_of(
            elements[k],
            vaddr - layout::total(elements.take(k + 1)),
            false,
        ),
    decreases elements.len(),
{
    reveal_with_fuel(mapping::zones_down_from, 2);
    let rest = elements.drop_last();
    if k < rest.len() {
        lemma_down(rest, vaddr, k);
        assert(rest.take(k + 1) =~= elements.take(k + 1));
        assert(rest[k] == elements[k]);
    } else {
        assert(elements.take(k + 1) =~= elements);
        if rest.len() > 0 {
            lemma_down(rest, vaddr, 0);
        }
    }
}

proof fn lemma_up(elements: Seq<VirtLayoutElement>, vaddr: int, map: bool, k: int)
    requires
        0 <= k < elements.len(),
    ensures
        mapping::zones_from(elements, vaddr, map).len() == elements.len(),
        mapping::zones_from(elements, vaddr, map)[k] == mapping::zone_of(
            elements[k],
            vaddr + layout::total(elements.take(k)),
            map,
        ),
    decreases elements.len(),
{
    reveal_with_fuel(mapping::zones_from, 2);
    let rest = elements.drop_last();
    if k < rest.len() {
        lemma_up(rest, vaddr, map, k);
        assert(rest.take(k) =~= elements.take(k));
        assert(rest[k] == elements[k]);
    } else {
        assert(elements.take(k) =~= rest);
        if rest.len() > 0 {
            lemma_up(rest, vaddr, map, 0);
        }
    }
}

/// To bring a layout to a range, the pieces that wait to be given back are unmapped first, the
/// last of the layout first, each in front of the one before. Then the pieces that are not
/// mapped yet are mapped, each behind those before it. A piece that maps no memory is only
/// kept free.
pub proof fn lemma_ranges_to_map(
    phys_zones: VirtLayout,
    range: VirtRange,
    iter: PageMappingIterator,
    k: int,
)
    requires
        phys_zones.wf(),
        range.addr + phys_zones.clean_size <= u64::MAX,
        range.addr + layout::total(phys_zones.data@) <= u64::MAX,
        call_ensures(PageMappingIterator::new, (&phys_zones, &range), iter),
        0 <= k < iter.zones@.len(),
    ensures
        ({
            let que = phys_zones.dealloc_que@;
            let dirty = phys_zones.dirty_index as int;
            let waits = k < que.len();
            let piece = if waits {
                que[k]
            } else {
                phys_zones.data@[dirty + k - que.len()]
            };
            let zone = iter.zones@[k];
            &&& iter.pindex == 0
            &&& iter.zones@.len() == que.len() + phys_zones.data@.len() - dirty
            &&& zone.virt_zone.size == piece.map_size
            &&& waits ==> zone.virt_zone.addr == range.addr + phys_zones.clean_size - que.take(
                k + 1,
            ).fold_left(0int, |sum: int, piece: VirtLayoutElement| sum + piece.map_size)
            &&& !waits ==> zone.virt_zone.addr == range.addr + phys_zones.data@.take(
                dirty + k - que.len(),
            ).fold_left(0int, |sum: int, piece: VirtLayoutElement| sum + piece.map_size)
            &&& zone.reserved <==> piece.flags.bits & 1 == 0 || piece.phys_data is Empty
            &&& !zone.reserved ==> {
                &&& zone.flags.bits == if waits {
                    0
                } else {
                    piece.flags.bits
                }
                &&& piece.phys_data matches VirtLayoutElementType::Mem(mem) ==> zone.phys_zone
                    == mem
                &&& piece.phys_data matches VirtLayoutElementType::AllocedMem(m)
                    ==> zone.phys_zone.addr == m.phys && zone.phys_zone.size == m.len
            }
        }),
{
    let que = phys_zones.dealloc_que@;
    let dirty = phys_zones.dirty_index as int;
    let rest = phys_zones.data@.skip(dirty);
    let top = range.addr + phys_zones.clean_size;
    let start = range.addr + layout::total(phys_zones.data@.take(dirty));
    let down = mapping::zones_down_from(que, top);
    let up = mapping::zones_from(rest, start, true);
    if que.len() > 0 {
        lemma_down(que, top, 0);
    }
    if rest.len() > 0 {
        lemma_up(rest, start, true, 0);
    }
    assert(down.len() == que.len() && up.len() == rest.len());
    assert(iter.zones@ == down + up);
    if k < que.len() {
        lemma_down(que, top, k);
        layout::lemma_total_take(que, k + 1);
        layout::lemma_total_take(phys_zones.data@, dirty);
        layout::lemma_total_is_sum(que.take(k + 1));
        flags::lemma_low_bits(que[k].flags.bits);
        assert(iter.zones@[k] == down[k]);
    } else {
        let j = k - que.len();
        lemma_up(rest, start, true, j);
        assert(iter.zones@[k] == up[j]);
        assert(rest[j] == phys_zones.data@[dirty + j]);
        assert(phys_zones.data@.take(dirty) + rest.take(j) =~= phys_zones.data@.take(dirty + j));
        layout::lemma_total_add(phys_zones.data@.take(dirty), rest.take(j));
        layout::lemma_total_take(phys_zones.data@, dirty + j);
        layout::lemma_total_is_sum(phys_zones.data@.take(dirty + j));
        flags::lemma_low_bits(rest[j].flags.bits);
    }
}

/// To take a layout from a range, the pieces that are mapped are unmapped, and then those that
/// wait to be given back, the last that waits first, each behind those before it.
pub proof fn lemma_ranges_to_unmap(
    phys_zones: VirtLayout,
    range: VirtRange,
    iter: PageMappingIterator,
    k: int,
)
    requires
        phys_zones.wf(),
        range.addr + phys_zones.clean_size <= u64::MAX,
        call_ensures(PageMappingIterator::new_unmapper, (&phys_zones, &range), iter),
        0 <= k < iter.zones@.len(),
    ensures
        ({
            let que = phys_zones.dealloc_que@;
            let dirty = phys_zones.dirty_index as int;
            let pieces = phys_zones.data@.take(dirty) + que.reverse();
            let zone = iter.zones@[k];
            &&& iter.pindex == 0
            &&& iter.zones@.len() == dirty + que.len()
            &&& zone.virt_zone.size == pieces[k].map_size
            &&& zone.virt_zone.addr == range.addr + pieces.take(k).fold_left(
                0int,
                |sum: int, piece: VirtLayoutElement| sum + piece.map_size,
            )
            &&& zone.reserved <==> pieces[k].flags.bits & 1 == 0 || pieces[k].phys_data is Empty
            &&& !zone.reserved ==> {
                &&& zone.flags.bits == 0
                &&& pieces[k].phys_data matches VirtLayoutElementType::Mem(mem) ==> zone.phys_zone
                    == mem
                &&& pieces[k].phys_data matches VirtLayoutElementType::AllocedMem(m)
                    ==> zone.phys_zone.addr == m.phys && zone.phys_zone.size == m.len
            }
        }),
{
    let que = phys_zones.dealloc_que@;
    let dirty = phys_zones.dirty_index as int;
    let pieces = phys_zones.data@.take(dirty) + que.reverse();
    if pieces.len() > 0 {
        lemma_up(pieces, range.addr as int, false, 0);
    }
    lemma_up(pieces, range.addr as int, false, k);
    layout::lemma_total_is_sum(pieces.take(k));
    layout::lemma_total_take(pieces, k);
    layout::lemma_total_add(phys_zones.data@.take(dirty), que.reverse());
    mapping::lemma_total_reverse(que);
    flags::lemma_low_bits(pieces[k].flags.bits);
}

proof fn lemma_first_page(zones: Seq<Pmit>, z: int)
    requires
        0 <= z < zones.len(),
        forall|k: int| 0 <= k < z ==> (#[trigger] zones[k]).spec_take_size() is None,
        zones[z].spec_take_size() is Some,
        zones[z].virt_zone.wf(),
    ensures
        mapping::actions_of(zones).len() > 0,
        mapping::actions_of(zones)[0] == zones[z].action(zones[z].spec_take_size()->0),
    decreases z,
{
    let rest = zones.skip(1);
    assert(zones =~= seq![zones[0]] + rest);
    mapping::lemma_actions_of_first(zones[0], rest);
    if z > 0 {
        assert forall|k: int| 0 <= k < z - 1 implies (
        #[trigger] rest[k]).spec_take_size() is None by {
            assert(rest[k] == zones[k + 1]);
        }
        assert(rest[z - 1] == zones[z]);
        assert(zones[0].actions() =~= Seq::empty());
        lemma_first_page(rest, z - 1);
        assert(mapping::actions_of(zones) =~= mapping::actions_of(rest));
    } else {
        let page = zones[0].spec_take_size()->0;
        assert(zones[0].actions() == seq![zones[0].action(page)] + zones[0].after(
            page,
        ).actions());
    }
}

/// The next page is one of the first range from which a page can be taken: the largest that
/// both its memory and its addresses start with. It is mapped with the flags of the range, or
/// unmapped where they are not present. A page that is only kept free starts at zero.
pub proof fn lemma_next_page(
    iter: &mut PageMappingIterator,
    action: Option<PageMappingAction>,
    z: int,
    other: PageSize,
    size: u64,
)
    requires
        old(iter).wf(),
        call_ensures(PageMappingIterator::next, (iter,), action),
        old(iter).pindex <= z < old(iter).zones@.len(),
        forall|k: int|
            old(iter).pindex <= k < z ==> (#[trigger] old(iter).zones@[k]).virt_zone.addr % 4096
                != 0 || old(iter).zones@[k].phys_zone.addr % 4096 != 0
                || old(iter).zones@[k].virt_zone.size < 4096,
        old(iter).zones@[z].virt_zone.addr % 4096 == 0,
        old(iter).zones@[z].phys_zone.addr % 4096 == 0,
        old(iter).zones@[z].virt_zone.size >= 4096,
        call_ensures(PageSize::as_u64, (other,), size),
        old(iter).zones@[z].virt_zone.addr % size == 0,
        old(iter).zones@[z].phys_zone.addr % size == 0,
        old(iter).zones@[z].virt_zone.size >= size,
    ensures
        ({
            let zone = old(iter).zones@[z];
            &&& zone.reserved ==> (action matches Some(PageMappingAction::ReserveFrame(frame))
                && frame.start() == 0 && size <= frame.page().bytes() <= zone.virt_zone.size)
            &&& !zone.reserved && zone.flags.bits & 1 == 0 ==> (action matches Some(
                PageMappingAction::UnmapFrame(frame),
            ) && frame.start() == zone.virt_zone.addr && size <= frame.page().bytes()
                <= zone.virt_zone.size)
            &&& !zone.reserved && zone.flags.bits & 1 != 0 ==> (action matches Some(
                PageMappingAction::MapFrame(pframe, frame, flags),
            ) && frame.start() == zone.virt_zone.addr && pframe.start() == zone.phys_zone.addr
                && flags == zone.flags && size <= frame.page().bytes() <= zone.virt_zone.size && (
            frame is K4 <==> pframe is K4) && (frame is M2 <==> pframe is M2))
        }),
{
    let first = old(iter).pindex as int;
    let zones = old(iter).zones@.skip(first);
    let zone = old(iter).zones@[z];
    assert forall|k: int| 0 <= k < zones.len() implies (#[trigger] zones[k]).wf() by {
        assert(zones[k] == old(iter).zones@[first + k]);
    }
    assert forall|k: int| 0 <= k < z - first implies (
    #[trigger] zones[k]).spec_take_size() is None by {
        let zk = old(iter).zones@[first + k];
        assert(zones[k] == zk);
        lemma_divided(zk.virt_zone.addr);
        lemma_divided(zk.phys_zone.addr);
    }
    assert(zones[z - first] == zone);
    assert(zone.wf());
    lemma_divided(zone.virt_zone.addr);
    lemma_divided(zone.phys_zone.addr);
    lemma_first_page(zones, z - first);
    flags::lemma_low_bits(zone.flags.bits);
}

} // verus!
