//! An address space: which ranges are mapped, and the page tables behind them.
use vstd::prelude::*;
use crate::mem::addr::{Allocation, PageSize, PhysFrame, VirtFrame, VirtRange, PAGE_SIZE};
use crate::mem::flags::PageTableFlags;
use crate::mem::layout;
use crate::mem::layout::{AllocType, VirtLayout, VirtLayoutElement, VirtLayoutElementType};
use crate::mem::mapping;
use crate::mem::mapping::{PageMappingAction, PageMappingIterator};
use crate::mem::page_table;
use crate::mem::page_table::{FrameAllocator, PageMemory, PageTable, PageTablePointer};
use crate::mem::walk;
use crate::mem::walk::TableState;

verus! {

/// Why a range was not mapped or unmapped.
#[derive(Debug, Clone, Copy, PartialEq, Eq, Structural)]
pub enum MapError {
    ZeroSize,
    NoSpace,
    SizeMismatch,
    InvalidZone,
    NotMapped,
}

impl MapError {
    /// What to tell about the error, where there is something to tell.
    pub fn message(&self) -> (text: Option<&'static str>)
        ensures
            match *self {
                MapError::ZeroSize => text matches Some(t) && t@
                    == "tryed to map page of size zero"@,
                MapError::NoSpace => text matches Some(t) && t@
                    == "not enough space in virtual memory space for allocation"@,
                MapError::SizeMismatch => text matches Some(t) && t@
                    == "phys_zones and virt_zone size did not match"@,
                MapError::InvalidZone => text matches Some(t) && t@
                    == "invalid virt zone passed to map_at"@,
                MapError::NotMapped => text is None,
            },
    {
        match *self {
            MapError::ZeroSize => Some("tryed to map page of size zero"),
            MapError::NoSpace => Some("not enough space in virtual memory space for allocation"),
            MapError::SizeMismatch => Some("phys_zones and virt_zone size did not match"),
            MapError::InvalidZone => Some("invalid virt zone passed to map_at"),
            MapError::NotMapped => None,
        }
    }
}

/// The index of the entry of the root table that refers to the kernel's half.
pub const KERNEL_INDEX: usize = 511;

/// A mapped range with the pieces that it holds.
#[verifier::ext_equal]
pub struct Zone {
    pub range: VirtRange,
    pub elements: Seq<VirtLayoutElement>,
    pub alloc_type: AllocType,
}

impl Zone {
    /// The range takes whole pages between the null page and `max`, as many as its
    /// pieces do.
    pub open spec fn wf(self, max: u64) -> bool {
        &&& self.range.size > 0
        &&& self.range.addr % PAGE_SIZE == 0
        &&& self.range.size % PAGE_SIZE == 0
        &&& PAGE_SIZE <= self.range.addr
        &&& self.range.end() <= max
        &&& layout::total(self.elements) == self.range.size
        &&& mapping::mappable(self.elements)
        &&& forall|i: int| 0 <= i < self.elements.len() ==> (#[trigger] self.elements[i]).wf()
    }
}

/// The ranges are in order and do not overlap.
pub open spec fn zones_ok(zones: Seq<Zone>, max: u64) -> bool {
    &&& forall|i: int| 0 <= i < zones.len() ==> (#[trigger] zones[i]).wf(max)
    &&& forall|i: int, j: int|
        0 <= i < j < zones.len() ==> (#[trigger] zones[i]).range.end() <= (
        #[trigger] zones[j]).range.addr
}

/// Whether a range lies between the null page and `max`, apart from all mapped
/// ranges.
pub open spec fn fits(zones: Seq<Zone>, max: u64, range: VirtRange) -> bool {
    &&& PAGE_SIZE <= range.addr
    &&& range.end() <= max
    &&& forall|i: int| 0 <= i < zones.len() ==> range.disjoint((#[trigger] zones[i]).range)
}

/// Whether no range of a size fits.
pub open spec fn nothing_fits(zones: Seq<Zone>, max: u64, size: int) -> bool {
    forall|range: VirtRange| range.size == size ==> !#[trigger] fits(zones, max, range)
}

/// Whether a range is the lowest of its size that fits.
pub open spec fn is_lowest_fit(zones: Seq<Zone>, max: u64, range: VirtRange) -> bool {
    &&& fits(zones, max, range)
    &&& forall|other: VirtRange|
        other.size == range.size && #[trigger] fits(zones, max, other) ==> range.addr <= other.addr
}

/// How many of the mapped ranges come before `range`.
pub open spec fn slot(zones: Seq<Zone>, range: VirtRange) -> int
    decreases zones.len(),
{
    if zones.len() == 0 {
        0
    } else if zones.last().range.before(range) {
        zones.len() as int
    } else {
        slot(zones.drop_last(), range)
    }
}

/// What is to be done for pieces that lie one after the other from `vaddr`.
pub open spec fn actions_for(
    elements: Seq<VirtLayoutElement>,
    vaddr: int,
    map: bool,
) -> Seq<PageMappingAction> {
    mapping::actions_of(mapping::zones_from(elements, vaddr, map))
}

/// The flag that tells a page from a table above the lowest level.
pub open spec fn size_flag(page: PageSize) -> u64 {
    match page {
        PageSize::K4 => PageTableFlags::NONE,
        PageSize::M2 => PageTableFlags::HUGE,
        PageSize::G1 => PageTableFlags::HUGE,
    }
}

/// The entry of a page.
pub open spec fn leaf_entry(pframe: PhysFrame, vframe: VirtFrame, flags: PageTableFlags) -> u64 {
    pframe.start() | (flags.bits | PageTableFlags::PRESENT | size_flag(vframe.page()))
}

/// The pages that are mapped after some actions.
pub open spec fn map_all(pages: Map<Seq<int>, u64>, actions: Seq<PageMappingAction>) -> Map<
    Seq<int>,
    u64,
>
    decreases actions.len(),
{
    if actions.len() == 0 {
        pages
    } else {
        let before = map_all(pages, actions.drop_last());
        match actions.last() {
            PageMappingAction::MapFrame(pframe, vframe, flags) => before.insert(
                mapping::frame_path(vframe),
                page_table::strip(leaf_entry(pframe, vframe, flags)),
            ),
            PageMappingAction::UnmapFrame(vframe) => before.remove(mapping::frame_path(vframe)),
            PageMappingAction::ReserveFrame(_) => before,
        }
    }
}

/// The links between tables after some actions.
pub open spec fn link_all(
    links: Map<Seq<int>, u64>,
    pages: Map<Seq<int>, u64>,
    actions: Seq<PageMappingAction>,
) -> Map<Seq<int>, u64>
    decreases actions.len(),
{
    if actions.len() == 0 {
        links
    } else {
        let before = link_all(links, pages, actions.drop_last());
        match actions.last() {
            PageMappingAction::MapFrame(_, vframe, _) => walk::with_parents(
                before,
                mapping::frame_path(vframe),
                mapping::depth_of(vframe.page()) - 1,
            ),
            PageMappingAction::UnmapFrame(vframe) => walk::without_page(
                before,
                map_all(pages, actions.drop_last()),
                mapping::frame_path(vframe),
            ),
            PageMappingAction::ReserveFrame(_) => before,
        }
    }
}

/// Whether an action can be carried out: a page that is to be mapped finds its entry free,
/// and one that is to be unmapped is there.
pub open spec fn can_do(
    links: Map<Seq<int>, u64>,
    pages: Map<Seq<int>, u64>,
    action: PageMappingAction,
) -> bool {
    match action {
        PageMappingAction::MapFrame(_, vframe, _) => walk::is_free(
            links,
            pages,
            mapping::frame_path(vframe),
        ),
        PageMappingAction::UnmapFrame(vframe) => pages.contains_key(mapping::frame_path(vframe)),
        PageMappingAction::ReserveFrame(_) => true,
    }
}

/// Whether some actions can be carried out, each after those before it.
pub open spec fn can_run(
    links: Map<Seq<int>, u64>,
    pages: Map<Seq<int>, u64>,
    actions: Seq<PageMappingAction>,
) -> bool {
    forall|k: int|
        0 <= k < actions.len() ==> can_do(
            link_all(links, pages, actions.take(k)),
            map_all(pages, actions.take(k)),
            #[trigger] actions[k],
        )
}

/// What carrying out one action does to the tables and their frames.
pub open spec fn does(
    before: TableState,
    after: TableState,
    root: u64,
    action: PageMappingAction,
) -> bool {
    match action {
        PageMappingAction::MapFrame(pframe, vframe, flags) => walk::maps_page(
            before,
            after,
            root,
            mapping::frame_path(vframe),
            leaf_entry(pframe, vframe, flags),
        ),
        PageMappingAction::UnmapFrame(vframe) => walk::unmaps_page(
            before,
            after,
            root,
            mapping::frame_path(vframe),
        ),
        PageMappingAction::ReserveFrame(_) => after == before,
    }
}

/// What carrying out some actions, one after the other, does to the tables and their frames.
pub open spec fn ran(
    before: TableState,
    after: TableState,
    root: u64,
    actions: Seq<PageMappingAction>,
) -> bool
    decreases actions.len(),
{
    if actions.len() == 0 {
        after == before
    } else {
        exists|mid: TableState|
            ran(before, mid, root, actions.drop_last()) && #[trigger] does(
                mid,
                after,
                root,
                actions.last(),
            )
    }
}

/// The addresses whose translations have to be dropped after some actions. Pages that are
/// only kept free have none.
pub open spec fn flushed(actions: Seq<PageMappingAction>) -> Seq<u64>
    decreases actions.len(),
{
    if actions.len() == 0 {
        Seq::empty()
    } else {
        let before = flushed(actions.drop_last());
        if actions.last() is ReserveFrame {
            before
        } else {
            before.push(actions.last().frame().start())
        }
    }
}

/// Whether the pages hold what was mapped for a range.
pub open spec fn zone_mapped(pages: Map<Seq<int>, u64>, zone: Zone) -> bool {
    let actions = actions_for(zone.elements, zone.range.addr as int, true);
    forall|k: int|
        0 <= k < actions.len() ==> page_holds(pages, #[trigger] actions[k])
}

/// Whether a page is mapped as an action says.
pub open spec fn page_holds(pages: Map<Seq<int>, u64>, action: PageMappingAction) -> bool {
    action matches PageMappingAction::MapFrame(pframe, vframe, flags) ==> {
        &&& pages.contains_key(mapping::frame_path(vframe))
        &&& pages[mapping::frame_path(vframe)] == page_table::strip(
            leaf_entry(pframe, vframe, flags),
        )
    }
}

/// Whether a page was mapped for a range.
pub open spec fn is_page_of(zone: Zone, path: Seq<int>) -> bool {
    let actions = actions_for(zone.elements, zone.range.addr as int, true);
    exists|k: int|
        0 <= k < actions.len() && (#[trigger] actions[k]) is MapFrame && path
            == mapping::frame_path(actions[k].frame())
}

/// Whether all pages but those of the kernel's half were mapped for a range.
pub open spec fn pages_covered(zones: Seq<Zone>, pages: Map<Seq<int>, u64>) -> bool {
    forall|p: Seq<int>| #[trigger]
        pages.contains_key(p) && walk::outside(p, KERNEL_INDEX as int) ==> exists|i: int|
            0 <= i < zones.len() && is_page_of(#[trigger] zones[i], p)
}

/// Whether the processor takes every address of the range for an address.
pub open spec fn canonical(range: VirtRange) -> bool {
    range.end() <= USER_END || range.addr >= 0xffff_8000_0000_0000
}

/// The end of the addresses below the gap between the lower and the upper addresses.
pub const USER_END: u64 = 0x8000_0000_0000;

/// The first address of the kernel's half.
pub const KERNEL_START: u64 = 0xffff_ff80_0000_0000;

/// Whether a range holds addresses alone, and none of the kernel's half.
pub open spec fn below_kernel(range: VirtRange) -> bool {
    canonical(range) && range.end() <= KERNEL_START
}

/// Whether the entries that the pieces need at `vaddr` are not in use.
pub open spec fn entries_free(
    tables: Map<u64, PageTable>,
    root: u64,
    elements: Seq<VirtLayoutElement>,
    vaddr: int,
) -> bool {
    let actions = actions_for(elements, vaddr, true);
    forall|k: int|
        0 <= k < actions.len() && !((#[trigger] actions[k]) is ReserveFrame) ==> walk::path_free(
            tables,
            root,
            mapping::frame_path(actions[k].frame()),
        )
}

/// The walks to the pages of some actions end at unrelated entries.
pub open spec fn paths_apart(actions: Seq<PageMappingAction>) -> bool {
    forall|k: int, l: int|
        0 <= k < l < actions.len() && !((#[trigger] actions[k]) is ReserveFrame) && !((
        #[trigger] actions[l]) is ReserveFrame) ==> walk::unrelated(
            mapping::frame_path(actions[k].frame()),
            mapping::frame_path(actions[l].frame()),
        )
}

proof fn lemma_leaf_bits(addr: u64, flags: u64)
    by (bit_vector)
    ensures
        (addr | (flags | 1 | (1u64 << 7))) & 1 != 0,
        (addr | (flags | 1 | (1u64 << 7))) & (1u64 << 7) == 1u64 << 7,
        (addr | (flags | 1 | 0)) & 1 != 0,
{
}

proof fn lemma_leaf(pframe: PhysFrame, vframe: VirtFrame, flags: PageTableFlags)
    ensures
        page_table::entry_present(leaf_entry(pframe, vframe, flags)),
        vframe.page() != PageSize::K4 ==> page_table::entry_huge(
            leaf_entry(pframe, vframe, flags),
        ),
{
    lemma_leaf_bits(pframe.start(), flags.bits);
}

proof fn lemma_frame_path(frame: VirtFrame)
    ensures
        walk::entry_path(mapping::frame_path(frame)),
        mapping::frame_path(frame).len() == mapping::depth_of(frame.page()),
        mapping::frame_path(frame).drop_last() == walk::path_of(
            frame.start(),
            mapping::depth_of(frame.page()) - 1,
        ),
{
    assert(mapping::frame_path(frame).drop_last() =~= walk::path_of(
        frame.start(),
        mapping::depth_of(frame.page()) - 1,
    ));
}

/// A path that is free leads to no page.
proof fn lemma_free_not_page(tables: Map<u64, PageTable>, root: u64, path: Seq<int>)
    requires
        walk::entry_path(path),
        walk::path_free(tables, root, path),
    ensures
        !walk::pages(tables, root).contains_key(path),
{
    assert(path.take(path.len() as int) =~= path);
    if walk::is_page(tables, root, path) {
        assert(walk::lookup(tables, root, path.take(path.len() as int)) is Some);
    }
}

/// A map stays a part of another to which a key is added that it does not have.
proof fn lemma_submap_insert(
    part: Map<Seq<int>, u64>,
    whole: Map<Seq<int>, u64>,
    key: Seq<int>,
    value: u64,
)
    requires
        part.submap_of(whole),
        !part.contains_key(key),
    ensures
        part.submap_of(whole.insert(key, value)),
{
    let next = whole.insert(key, value);
    assert forall|k: Seq<int>| #[trigger] part.dom().contains(k) implies next.dom().contains(k)
        && part[k] == next[k] by {
        assert(whole.dom().contains(k));
        assert(part.contains_key(k));
        assert(k != key);
    }
}

/// Mapping pages at entries that are not in use keeps the pages that there are and
/// adds the new ones.
proof fn lemma_map_all(pages: Map<Seq<int>, u64>, actions: Seq<PageMappingAction>)
    requires
        forall|k: int|
            0 <= k < actions.len() ==> (#[trigger] actions[k]) is ReserveFrame || actions[k]
                is MapFrame && !pages.contains_key(mapping::frame_path(actions[k].frame())),
        paths_apart(actions),
    ensures
        pages.submap_of(map_all(pages, actions)),
        forall|k: int|
            0 <= k < actions.len() ==> page_holds(map_all(pages, actions), #[trigger] actions[k]),
        forall|p: Seq<int>|
            #[trigger] map_all(pages, actions).contains_key(p) ==> pages.contains_key(p) || exists|
                k: int,
            |
                0 <= k < actions.len() && (#[trigger] actions[k]) is MapFrame && p
                    == mapping::frame_path(actions[k].frame()),
    decreases actions.len(),
{
    if actions.len() > 0 {
        let rest = actions.drop_last();
        let n = rest.len() as int;
        assert forall|k: int| 0 <= k < rest.len() implies (
        #[trigger] rest[k]) is ReserveFrame || rest[k] is MapFrame && !pages.contains_key(
            mapping::frame_path(rest[k].frame()),
        ) by {
            assert(rest[k] == actions[k]);
        }
        lemma_paths_apart_front(actions);
        lemma_map_all(pages, rest);
        let last_path = mapping::frame_path(actions[n].frame());
        assert(actions.last() == actions[n]);
        let before = map_all(pages, rest);
        let after = map_all(pages, actions);
        assert forall|k: int| 0 <= k < actions.len() implies page_holds(
            after,
            #[trigger] actions[k],
        ) by {
            if k < n {
                assert(rest[k] == actions[k]);
                assert(page_holds(before, rest[k]));
                if actions[k] is MapFrame && actions[n] is MapFrame {
                    let path = mapping::frame_path(actions[k].frame());
                    assert(walk::unrelated(path, last_path));
                    if path == last_path {
                        assert(path.take(path.len() as int) =~= path);
                        assert(walk::is_prefix(path, last_path));
                    }
                }
            }
        }
        match actions[n] {
            PageMappingAction::MapFrame(pframe, vframe, flags) => {
                lemma_submap_insert(
                    pages,
                    before,
                    last_path,
                    page_table::strip(leaf_entry(pframe, vframe, flags)),
                );
            },
            PageMappingAction::UnmapFrame(_) => {},
            PageMappingAction::ReserveFrame(_) => {
                assert(after == before);
            },
        }
        assert(pages.submap_of(after));
        assert forall|p: Seq<int>| #[trigger] after.contains_key(p) implies pages.contains_key(p)
            || exists|k: int|
            0 <= k < actions.len() && (#[trigger] actions[k]) is MapFrame && p
                == mapping::frame_path(actions[k].frame()) by {
            if actions[n] is MapFrame && p == last_path {
                assert(p == mapping::frame_path(actions[n].frame()));
            } else {
                assert(before.contains_key(p));
                if !pages.contains_key(p) {
                    let k = choose|k: int|
                        0 <= k < rest.len() && (#[trigger] rest[k]) is MapFrame && p
                            == mapping::frame_path(rest[k].frame());
                    assert(rest[k] == actions[k]);
                }
            }
        }
    }
}

proof fn lemma_paths_apart_front(actions: Seq<PageMappingAction>)
    requires
        paths_apart(actions),
        actions.len() > 0,
    ensures
        paths_apart(actions.drop_last()),
{
    let rest = actions.drop_last();
    assert forall|k: int, l: int|
        0 <= k < l < rest.len() && !((#[trigger] rest[k]) is ReserveFrame) && !((
        #[trigger] rest[l]) is ReserveFrame) implies walk::unrelated(
        mapping::frame_path(rest[k].frame()),
        mapping::frame_path(rest[l].frame()),
    ) by {
        assert(rest[k] == actions[k] && rest[l] == actions[l]);
    }
}

/// Unmapping pages takes these pages away and no others.
proof fn lemma_unmap_all(pages: Map<Seq<int>, u64>, actions: Seq<PageMappingAction>)
    requires
        forall|k: int|
            0 <= k < actions.len() ==> (#[trigger] actions[k]) is ReserveFrame || actions[k]
                is UnmapFrame,
    ensures
        map_all(pages, actions).submap_of(pages),
        forall|p: Seq<int>| #[trigger]
            pages.contains_key(p) && !map_all(pages, actions).contains_key(p) ==> exists|k: int|
                0 <= k < actions.len() && (#[trigger] actions[k]) is UnmapFrame && p
                    == mapping::frame_path(actions[k].frame()),
        forall|k: int|
            0 <= k < actions.len() && (#[trigger] actions[k]) is UnmapFrame ==> !map_all(
                pages,
                actions,
            ).contains_key(mapping::frame_path(actions[k].frame())),
    decreases actions.len(),
{
    if actions.len() > 0 {
        let rest = actions.drop_last();
        let n = rest.len() as int;
        assert forall|k: int| 0 <= k < rest.len() implies (
        #[trigger] rest[k]) is ReserveFrame || rest[k] is UnmapFrame by {
            assert(rest[k] == actions[k]);
        }
        lemma_unmap_all(pages, rest);
        assert(actions.last() == actions[n]);
        let before = map_all(pages, rest);
        let after = map_all(pages, actions);
        assert forall|p: Seq<int>| #[trigger]
            pages.contains_key(p) && !after.contains_key(p) implies exists|k: int|
            0 <= k < actions.len() && (#[trigger] actions[k]) is UnmapFrame && p
                == mapping::frame_path(actions[k].frame()) by {
            if before.contains_key(p) {
                assert(p == mapping::frame_path(actions[n].frame()));
            } else {
                let k = choose|k: int|
                    0 <= k < rest.len() && (#[trigger] rest[k]) is UnmapFrame && p
                        == mapping::frame_path(rest[k].frame());
                assert(rest[k] == actions[k]);
            }
        }
        assert forall|k: int|
            0 <= k < actions.len() && (#[trigger] actions[k]) is UnmapFrame implies !after.contains_key(
            mapping::frame_path(actions[k].frame()),
        ) by {
            if k < n {
                assert(rest[k] == actions[k]);
            }
        }
    }
}

/// The actions for pieces at a canonical range are about pages that lie apart.
proof fn lemma_actions_for(elements: Seq<VirtLayoutElement>, range: VirtRange, map: bool)
    requires
        mapping::mappable(elements),
        layout::total(elements) == range.size,
        range.wf(),
        canonical(range),
    ensures
        paths_apart(actions_for(elements, range.addr as int, map)),
        forall|k: int|
            0 <= k < actions_for(elements, range.addr as int, map).len() ==> {
                let action = #[trigger] actions_for(elements, range.addr as int, map)[k];
                &&& mapping::lies_in(action, range.addr as int, range.end())
                &&& action is ReserveFrame || if map {
                    action is MapFrame
                } else {
                    action is UnmapFrame
                }
            },
{
    let actions = actions_for(elements, range.addr as int, map);
    mapping::lemma_layout_actions(elements, range.addr as int, map);
    assert forall|k: int, l: int|
        0 <= k < l < actions.len() && !((#[trigger] actions[k]) is ReserveFrame) && !((
        #[trigger] actions[l]) is ReserveFrame) implies walk::unrelated(
        mapping::frame_path(actions[k].frame()),
        mapping::frame_path(actions[l].frame()),
    ) by {
        mapping::lemma_frames_unrelated(actions[k].frame(), actions[l].frame());
    }
}

/// Pages of ranges that do not overlap have entries of their own.
proof fn lemma_other_page(a: VirtRange, b: VirtRange, x: VirtFrame, y: VirtFrame)
    requires
        canonical(a),
        canonical(b),
        a.wf(),
        b.wf(),
        a.disjoint(b),
        x.start() % x.page().bytes() == 0,
        y.start() % y.page().bytes() == 0,
        a.addr <= x.start(),
        x.end() <= a.end(),
        b.addr <= y.start(),
        y.end() <= b.end(),
    ensures
        mapping::frame_path(x) != mapping::frame_path(y),
{
    if mapping::frame_path(x) == mapping::frame_path(y) {
        assert(mapping::frame_path(x).len() == mapping::depth_of(x.page()));
        assert(mapping::frame_path(y).len() == mapping::depth_of(y.page()));
        mapping::lemma_frame_of_path(x, y.start());
    }
}

/// The free space to both sides of a range between two neighbours, or none where the
/// range does not lie between them.
pub open spec fn gap(
    prev: Option<VirtRange>,
    next: Option<VirtRange>,
    range: VirtRange,
    max: u64,
) -> Option<(u64, u64)> {
    let low = match prev {
        Some(prev) => prev.end(),
        None => PAGE_SIZE as int,
    };
    let high = match next {
        Some(next) => next.addr as int,
        None => max as int,
    };
    if low <= range.addr && range.end() <= high {
        Some(((range.addr - low) as u64, (high - range.end()) as u64))
    } else {
        None
    }
}

/// The mapped range at `index`, if there is one.
pub open spec fn range_at(zones: Seq<Zone>, index: int) -> Option<VirtRange> {
    if 0 <= index < zones.len() {
        Some(zones[index].range)
    } else {
        None
    }
}

/// The free space to both sides of a range. A mapped range that is excluded is left out of
/// account.
pub open spec fn spec_free_space(
    zones: Seq<Zone>,
    max: u64,
    range: VirtRange,
    exclude: Option<VirtRange>,
) -> Option<(u64, u64)> {
    let p = slot(zones, range);
    let prev = if exclude is Some && range_at(zones, p - 1) == exclude {
        range_at(zones, p - 2)
    } else {
        range_at(zones, p - 1)
    };
    let next = if exclude is Some && range_at(zones, p) == exclude {
        range_at(zones, p + 1)
    } else {
        range_at(zones, p)
    };
    gap(prev, next, range, max)
}

/// In order, the ranges before `range` come first.
pub proof fn lemma_slot(zones: Seq<Zone>, max: u64, range: VirtRange)
    requires
        zones_ok(zones, max),
    ensures
        0 <= slot(zones, range) <= zones.len(),
        forall|i: int|
            0 <= i < slot(zones, range) ==> (#[trigger] zones[i]).range.before(range),
        forall|i: int|
            slot(zones, range) <= i < zones.len() ==> !(#[trigger] zones[i]).range.before(range),
    decreases zones.len(),
{
    if zones.len() > 0 {
        let n = zones.len() - 1;
        if zones.last().range.before(range) {
            assert forall|i: int| 0 <= i < zones.len() implies (#[trigger] zones[i]).range.before(
                range,
            ) by {
                if i < n {
                    assert(zones[i].range.end() <= zones[n].range.addr);
                    assert(zones[i].wf(max));
                }
            }
        } else {
            let rest = zones.drop_last();
            assert(zones_ok(rest, max)) by {
                assert forall|i: int| 0 <= i < rest.len() implies (#[trigger] rest[i]).wf(max) by {
                    assert(rest[i] == zones[i]);
                }
                assert forall|i: int, j: int| 0 <= i < j < rest.len() implies (
                #[trigger] rest[i]).range.end() <= (#[trigger] rest[j]).range.addr by {
                    assert(rest[i] == zones[i] && rest[j] == zones[j]);
                }
            }
            lemma_slot(rest, max, range);
            assert forall|i: int| 0 <= i < slot(zones, range) implies (
            #[trigger] zones[i]).range.before(range) by {
                assert(zones[i] == rest[i]);
            }
            assert forall|i: int| slot(zones, range) <= i < zones.len() implies !(
            #[trigger] zones[i]).range.before(range) by {
                if i < n {
                    assert(zones[i] == rest[i]);
                }
            }
        }
    }
}

/// There is free space around a range exactly where the range fits.
pub proof fn lemma_free_space_is_fit(zones: Seq<Zone>, max: u64, range: VirtRange)
    requires
        zones_ok(zones, max),
        range.size > 0,
    ensures
        spec_free_space(zones, max, range, None) is Some <==> fits(zones, max, range),
{
    lemma_slot(zones, max, range);
    let p = slot(zones, range);
    if spec_free_space(zones, max, range, None) is Some {
        if p > 0 {
            assert(zones[p - 1].wf(max));
        }
        if p < zones.len() {
            assert(zones[p].wf(max));
        }
        assert forall|i: int| 0 <= i < zones.len() implies range.disjoint(
            (#[trigger] zones[i]).range,
        ) by {
            if i < p - 1 {
                assert(zones[i].range.end() <= zones[p - 1].range.addr);
            } else if i > p {
                assert(zones[p].range.end() <= zones[i].range.addr);
            }
        }
    }
    if fits(zones, max, range) {
        if p > 0 {
            assert(zones[p - 1].wf(max));
            assert(range.disjoint(zones[p - 1].range));
        }
        if p < zones.len() {
            assert(zones[p].wf(max));
            assert(range.disjoint(zones[p].range));
        }
    }
}

/// Unmapping one of the mapped ranges leaves the pages of the others, and no page that was
/// mapped for it.
proof fn lemma_unmap_keeps_zones(
    zones: Seq<Zone>,
    max: u64,
    pages: Map<Seq<int>, u64>,
    p: int,
)
    requires
        zones_ok(zones, max),
        forall|i: int|
            0 <= i < zones.len() ==> canonical((#[trigger] zones[i]).range) && zone_mapped(
                pages,
                zones[i],
            ),
        pages_covered(zones, pages),
        0 <= p < zones.len(),
    ensures
        ({
            let left = zones.remove(p);
            let after = map_all(
                pages,
                actions_for(zones[p].elements, zones[p].range.addr as int, false),
            );
            &&& forall|i: int|
                0 <= i < left.len() ==> canonical((#[trigger] left[i]).range) && zone_mapped(
                    after,
                    left[i],
                )
            &&& pages_covered(left, after)
        }),
{
    let zone = zones[p];
    let left = zones.remove(p);
    let acts = actions_for(zone.elements, zone.range.addr as int, false);
    let after = map_all(pages, acts);
    assert(zone.wf(max));
    lemma_actions_for(zone.elements, zone.range, false);
    lemma_unmap_all(pages, acts);
    assert forall|i: int| 0 <= i < left.len() implies canonical((#[trigger] left[i]).range)
        && zone_mapped(after, left[i]) by {
        let j = if i < p { i } else { i + 1 };
        assert(left[i] == zones[j]);
        assert(zones[j].wf(max));
        assert(zone.range.disjoint(zones[j].range)) by {
            if j < p {
                assert(zones[j].range.end() <= zones[p].range.addr);
            } else {
                assert(zones[p].range.end() <= zones[j].range.addr);
            }
        }
        lemma_unmap_keeps_zone(pages, max, zone, zones[j]);
    }
    assert forall|path: Seq<int>| #[trigger]
        after.contains_key(path) && walk::outside(path, KERNEL_INDEX as int) implies exists|i: int|
        0 <= i < left.len() && is_page_of(#[trigger] left[i], path) by {
        assert(after.dom().contains(path));
        assert(pages.dom().contains(path));
        assert(pages.contains_key(path));
        let i = choose|i: int| 0 <= i < zones.len() && is_page_of(#[trigger] zones[i], path);
        if i == p {
            let maps = actions_for(zone.elements, zone.range.addr as int, true);
            let k = choose|k: int|
                0 <= k < maps.len() && (#[trigger] maps[k]) is MapFrame && path
                    == mapping::frame_path(maps[k].frame());
            mapping::lemma_same_pages(zone.elements, zone.range.addr as int);
            assert(acts[k].frame() == maps[k].frame());
            assert(acts[k] is UnmapFrame);
        }
        let j = if i < p { i } else { i - 1 };
        assert(left[j] == zones[i]);
    }
}

/// Unmapping a range leaves the pages of a range that does not overlap it.
proof fn lemma_unmap_keeps_zone(pages: Map<Seq<int>, u64>, max: u64, zone: Zone, other: Zone)
    requires
        zone.wf(max),
        other.wf(max),
        canonical(zone.range),
        canonical(other.range),
        zone.range.disjoint(other.range),
        zone_mapped(pages, other),
    ensures
        zone_mapped(
            map_all(pages, actions_for(zone.elements, zone.range.addr as int, false)),
            other,
        ),
{
    let acts = actions_for(zone.elements, zone.range.addr as int, false);
    let others = actions_for(other.elements, other.range.addr as int, true);
    let after = map_all(pages, acts);
    lemma_actions_for(zone.elements, zone.range, false);
    lemma_actions_for(other.elements, other.range, true);
    lemma_unmap_all(pages, acts);
    assert forall|k: int| 0 <= k < others.len() implies page_holds(after, #[trigger] others[k]) by {
        assert(page_holds(pages, others[k]));
        if others[k] is MapFrame {
            let path = mapping::frame_path(others[k].frame());
            assert(pages.contains_key(path));
            if !after.contains_key(path) {
                let l = choose|l: int|
                    0 <= l < acts.len() && (#[trigger] acts[l]) is UnmapFrame && path
                        == mapping::frame_path(acts[l].frame());
                lemma_other_page(other.range, zone.range, others[k].frame(), acts[l].frame());
            }
            assert(after.dom().contains(path));
        }
    }
}

/// Whether all of a range lies in another.
pub open spec fn covers(outer: VirtRange, inner: VirtRange) -> bool {
    outer.addr <= inner.addr && inner.end() <= outer.end()
}

/// A range and the free space to both sides of it.
pub open spec fn widened(range: VirtRange, left: u64, right: u64) -> VirtRange {
    VirtRange { addr: (range.addr - left) as u64, size: (left + range.size + right) as u64 }
}

/// The free space to both sides of a range is all there is: with it the range still fits,
/// and no wider range around it does. Where there is none, no range around it fits.
pub proof fn lemma_free_space_is_widest(zones: Seq<Zone>, max: u64, range: VirtRange)
    requires
        zones_ok(zones, max),
        range.wf(),
    ensures
        match spec_free_space(zones, max, range, None) {
            Some((left, right)) => {
                &&& left <= range.addr
                &&& left + range.size + right <= u64::MAX
                &&& fits(zones, max, widened(range, left, right))
                &&& forall|other: VirtRange| #[trigger]
                    fits(zones, max, other) && covers(other, range) ==> covers(
                        widened(range, left, right),
                        other,
                    )
            },
            None => forall|other: VirtRange| #[trigger]
                fits(zones, max, other) ==> !covers(other, range),
        },
{
    lemma_slot(zones, max, range);
    let p = slot(zones, range);
    if p > 0 {
        assert(zones[p - 1].wf(max));
    }
    if p < zones.len() {
        assert(zones[p].wf(max));
    }
    match spec_free_space(zones, max, range, None) {
        Some((left, right)) => {
            let wide = widened(range, left, right);
            assert forall|i: int| 0 <= i < zones.len() implies wide.disjoint(
                (#[trigger] zones[i]).range,
            ) by {
                if i < p - 1 {
                    assert(zones[i].range.end() <= zones[p - 1].range.addr);
                } else if i > p {
                    assert(zones[p].range.end() <= zones[i].range.addr);
                }
            }
        },
        None => {},
    }
    assert forall|other: VirtRange| #[trigger]
        fits(zones, max, other) && covers(other, range) implies match spec_free_space(
        zones,
        max,
        range,
        None,
    ) {
        Some((left, right)) => covers(widened(range, left, right), other),
        None => false,
    } by {
        if p > 0 {
            assert(other.disjoint(zones[p - 1].range));
        }
        if p < zones.len() {
            assert(other.disjoint(zones[p].range));
        }
    }
}

/// A mapped range that is excluded is left out of account: the free space is what it would
/// be if the range were not mapped.
pub proof fn lemma_excluded_is_left_out(zones: Seq<Zone>, max: u64, range: VirtRange, i: int)
    requires
        zones_ok(zones, max),
        0 <= i < zones.len(),
    ensures
        spec_free_space(zones, max, range, Some(zones[i].range)) == spec_free_space(
            zones.remove(i),
            max,
            range,
            None,
        ),
{
    let left = zones.remove(i);
    lemma_remove_zone(zones, max, i);
    lemma_slot(zones, max, range);
    lemma_slot(left, max, range);
    let p = slot(zones, range);
    let q = slot(left, range);
    assert forall|j: int| 0 <= j < zones.len() && j != i implies (#[trigger] zones[j]).range
        != zones[i].range by {
        assert(zones[i].wf(max) && zones[j].wf(max));
        if i < j {
            assert(zones[i].range.end() <= zones[j].range.addr);
        } else {
            assert(zones[j].range.end() <= zones[i].range.addr);
        }
    }
    assert forall|j: int| 0 <= j < left.len() implies #[trigger] left[j] == zones[if j < i {
        j
    } else {
        j + 1
    }] by {}
    let expected = if i < p { p - 1 } else { p };
    if q < expected {
        let k = if q < i { q } else { q + 1 };
        assert(left[q] == zones[k]);
        assert(zones[k].range.before(range));
    }
    if q > expected {
        let k = if expected < i { expected } else { expected + 1 };
        assert(left[expected] == zones[k]);
        assert(!zones[k].range.before(range));
    }
    assert(q == expected);
}

/// Excluding a range that is not mapped changes nothing.
pub proof fn lemma_excluded_is_not_there(
    zones: Seq<Zone>,
    max: u64,
    range: VirtRange,
    exclude: VirtRange,
)
    requires
        zones_ok(zones, max),
        forall|i: int| 0 <= i < zones.len() ==> (#[trigger] zones[i]).range != exclude,
    ensures
        spec_free_space(zones, max, range, Some(exclude)) == spec_free_space(
            zones,
            max,
            range,
            None,
        ),
{
    lemma_slot(zones, max, range);
}

/// A range that fits can be put into its place in the order.
proof fn lemma_insert_zone(zones: Seq<Zone>, max: u64, zone: Zone)
    requires
        zones_ok(zones, max),
        zone.wf(max),
        fits(zones, max, zone.range),
    ensures
        zones_ok(zones.insert(slot(zones, zone.range), zone), max),
{
    lemma_slot(zones, max, zone.range);
    let p = slot(zones, zone.range);
    let next = zones.insert(p, zone);
    assert forall|i: int| 0 <= i < next.len() implies (#[trigger] next[i]).wf(max) by {
        if i < p {
            assert(next[i] == zones[i]);
        } else if i > p {
            assert(next[i] == zones[i - 1]);
        }
    }
    assert forall|i: int, j: int| 0 <= i < j < next.len() implies (#[trigger] next[i]).range.end()
        <= (#[trigger] next[j]).range.addr by {
        if i < p {
            assert(next[i] == zones[i]);
            assert(zones[i].range.before(zone.range));
            assert(zone.range.disjoint(zones[i].range));
            assert(zones[i].wf(max));
        } else if i > p {
            assert(next[i] == zones[i - 1]);
        }
        if j < p {
            assert(next[j] == zones[j]);
        } else if j > p {
            assert(next[j] == zones[j - 1]);
            assert(!zones[j - 1].range.before(zone.range));
            assert(zone.range.disjoint(zones[j - 1].range));
            assert(zones[j - 1].wf(max));
        }
    }
}

/// Without one of them, the ranges are still in order and do not overlap.
pub proof fn lemma_remove_zone(zones: Seq<Zone>, max: u64, index: int)
    requires
        zones_ok(zones, max),
        0 <= index < zones.len(),
    ensures
        zones_ok(zones.remove(index), max),
{
    let next = zones.remove(index);
    assert forall|i: int| 0 <= i < next.len() implies (#[trigger] next[i]).wf(max) by {
        assert(next[i] == if i < index {
            zones[i]
        } else {
            zones[i + 1]
        });
    }
    assert forall|i: int, j: int| 0 <= i < j < next.len() implies (#[trigger] next[i]).range.end()
        <= (#[trigger] next[j]).range.addr by {
        assert(next[i] == if i < index {
            zones[i]
        } else {
            zones[i + 1]
        });
        assert(next[j] == if j < index {
            zones[j]
        } else {
            zones[j + 1]
        });
    }
}

/// An address space.
pub struct VirtMapper<T: FrameAllocator> {
    /// The mapped ranges in order, with what each of them holds.
    virt_map: Vec<(VirtRange, VirtLayout)>,
    /// The entry that refers to the root table.
    cr3: PageTablePointer,
    frame_allocer: T,
    /// The memory that holds the page tables.
    mem: PageMemory,
    /// No address from here on is mapped.
    max_map_addr: u64,
}

impl<T: FrameAllocator> VirtMapper<T> {
    /// The mapped ranges, in order.
    pub closed spec fn zones(&self) -> Seq<Zone> {
        Seq::new(
            self.virt_map@.len(),
            |i: int|
                Zone {
                    range: self.virt_map@[i].0,
                    elements: self.virt_map@[i].1.data@,
                    alloc_type: self.virt_map@[i].1.alloc_type,
                },
        )
    }

    /// What is mapped is all of each layout.
    pub closed spec fn layouts_synced(&self) -> bool {
        forall|i: int|
            0 <= i < self.virt_map@.len() ==> (#[trigger] self.virt_map@[i]).1.synced()
                && self.virt_map@[i].1.wf()
    }

    /// The page tables, by the addresses of their frames.
    pub closed spec fn tables(&self) -> Map<u64, PageTable> {
        self.mem@
    }

    /// The entry that refers to the root table, as the processor gets it.
    pub closed spec fn root_entry(&self) -> u64 {
        self.cr3.0
    }

    /// The address of the root table.
    pub open spec fn root(&self) -> u64 {
        page_table::entry_addr(self.root_entry())
    }

    pub closed spec fn frame_allocator(&self) -> T {
        self.frame_allocer
    }

    /// The end of the addresses that can be mapped.
    pub closed spec fn max(&self) -> u64 {
        self.max_map_addr
    }

    /// The pages that the tables map.
    pub open spec fn pages(&self) -> Map<Seq<int>, u64> {
        walk::pages(self.tables(), self.root())
    }

    /// The links between the tables.
    pub open spec fn links(&self) -> Map<Seq<int>, u64> {
        walk::links(self.tables(), self.root())
    }

    /// The tables form a tree in frames that are in use, and apart from the kernel's half
    /// every table below the root has an entry in use.
    pub open spec fn tables_wf(&self) -> bool {
        &&& page_table::entry_present(self.root_entry())
        &&& walk::is_tree(self.tables(), self.root())
        &&& walk::own_frames(self.tables())
        &&& page_table::frames_of(self.tables()).submap_of(self.frame_allocator().live())
        &&& walk::leads_on(self.links(), self.pages(), KERNEL_INDEX as int)
    }

    /// The mapped ranges are in order, do not overlap, and are mapped by the tables. Apart
    /// from the kernel's half the tables map nothing else.
    pub open spec fn wf(&self) -> bool {
        &&& self.tables_wf()
        &&& self.max() >= PAGE_SIZE
        &&& self.layouts_synced()
        &&& zones_ok(self.zones(), self.max())
        &&& forall|i: int|
            0 <= i < self.zones().len() ==> canonical((#[trigger] self.zones()[i]).range)
                && zone_mapped(self.pages(), self.zones()[i])
        &&& pages_covered(self.zones(), self.pages())
    }

    /// The tables, and what their allocator has handed out and taken back.
    pub open spec fn state(&self) -> TableState {
        TableState {
            tables: self.tables(),
            live: self.frame_allocator().live(),
            returned: self.frame_allocator().returned(),
        }
    }

    /// Whether the pieces can be mapped at the range: the entries that they need are
    /// not in use.
    pub open spec fn clear_at(&self, elements: Seq<VirtLayoutElement>, range: VirtRange) -> bool {
        &&& canonical(range)
        &&& entries_free(self.tables(), self.root(), elements, range.addr as int)
    }

    /// An address space without mapped ranges, whose tables refer to the kernel's
    /// half. `mem` holds the tables of the kernel's half.
    pub fn new(
        frame_allocer: T,
        mem: PageMemory,
        higher_half: PageTablePointer,
        max_map_addr: u64,
    ) -> (mapper: VirtMapper<T>)
        requires
            page_table::frames_of(mem@).submap_of(frame_allocer.live()),
            walk::refers_to_tree(mem@, higher_half.0, 2),
            walk::own_frames(mem@),
            max_map_addr >= PAGE_SIZE,
        ensures
            mapper.wf(),
            mapper.zones() == Seq::<Zone>::empty(),
            mapper.max() == max_map_addr,
            mapper.root_entry() == mapper.root() | PageTableFlags::PRESENT,
            !frame_allocer.live().contains_key(mapper.root()),
            mapper.frame_allocator().live() == frame_allocer.live().insert(
                mapper.root(),
                mapper.tables()[mapper.root()].frame,
            ),
            mapper.frame_allocator().returned() == frame_allocer.returned(),
            mapper.tables() == mem@.insert(mapper.root(), mapper.tables()[mapper.root()]),
            forall|i: int|
                #![trigger walk::entry(mapper.tables(), mapper.root(), i)]
                0 <= i < page_table::ENTRIES ==> page_table::strip(
                    walk::entry(mapper.tables(), mapper.root(), i),
                ) == page_table::strip(
                    if i == KERNEL_INDEX {
                        higher_half.0
                    } else {
                        0
                    },
                ),
            page_table::count_of(walk::entry(mapper.tables(), mapper.root(), 0)) == 2,
    {
        let mut frame_allocer = frame_allocer;
        let mut mem = mem;
        let ghost before = mem@;
        proof {
            lemma_none_valid();
        }
        let pml4_table = PageTable::new(
            &mut mem,
            &mut frame_allocer,
            PageTableFlags { bits: PageTableFlags::NONE },
            false,
        );
        let ghost root = page_table::entry_addr(pml4_table.0);
        let ghost blank = mem@[root];
        proof {
            walk::lemma_blank_unused(blank, 1, KERNEL_INDEX as int);
        }
        let table = pml4_table.as_mut(&mut mem).unwrap();
        table.set(KERNEL_INDEX, higher_half);
        let mapper = VirtMapper {
            virt_map: Vec::new(),
            cr3: pml4_table,
            frame_allocer,
            mem,
            max_map_addr,
        };
        proof {
            assert(mem@ =~= before.insert(root, mem@[root]));
            if before.contains_key(root) {
                assert(page_table::frames_of(before).dom().contains(root));
            }
            page_table::lemma_with_count(0, 1);
            page_table::lemma_with_count(blank.entries@[0].0, 2);
            assert(blank.entries@[0].0 == page_table::with_count(0, 1));
            assert(page_table::count_of(blank.entries@[0].0) == 1);
            assert(mem@[root].entries@[0].0 == page_table::with_count(blank.entries@[0].0, 2));
            assert forall|i: int| 0 <= i < page_table::ENTRIES implies page_table::strip(
                #[trigger] walk::entry(mem@, root, i),
            ) == page_table::strip(
                if i == KERNEL_INDEX {
                    higher_half.0
                } else {
                    0
                },
            ) by {
                walk::lemma_blank_unused(blank, 1, i);
            }
            assert forall|i: int|
                0 <= i < page_table::ENTRIES && i
                    != KERNEL_INDEX implies !page_table::entry_present(
                #[trigger] walk::entry(mem@, root, i),
            ) by {
                page_table::lemma_strip(walk::entry(mem@, root, i));
                walk::lemma_blank_unused(blank, 1, i);
                page_table::lemma_strip(blank.entries@[i].0);
            }
            let e = walk::entry(mem@, root, KERNEL_INDEX as int);
            page_table::lemma_strip(e);
            page_table::lemma_strip(higher_half.0);
            walk::lemma_single_entry_tree(before, mem@, root, KERNEL_INDEX as int);
            assert forall|t: u64| #[trigger] page_table::frames_of(mem@).dom().contains(
                t,
            ) implies mapper.frame_allocator().live().dom().contains(t)
                && page_table::frames_of(mem@)[t] == mapper.frame_allocator().live()[t] by {
                if t != root {
                    assert(page_table::frames_of(before).dom().contains(t));
                }
            }
            assert(mapper.zones() =~= Seq::<Zone>::empty());
            lemma_none_or_present();
        }
        mapper
    }

    /// Takes page tables from another allocator from now on.
    pub fn set_frame_allocator(&mut self, frame_allocer: T)
        ensures
            final(self).frame_allocator() == frame_allocer,
            final(self).zones() == old(self).zones(),
            final(self).tables() == old(self).tables(),
            final(self).root_entry() == old(self).root_entry(),
            final(self).max() == old(self).max(),
            old(self).wf() && page_table::frames_of(old(self).tables()).submap_of(
                frame_allocer.live(),
            )
                ==> final(self).wf(),
    {
        self.frame_allocer = frame_allocer;
        assert(self.zones() =~= old(self).zones());
    }

    /// The memory that holds the page tables.
    pub fn memory(&self) -> (mem: &PageMemory)
        ensures
            mem@ == self.tables(),
    {
        &self.mem
    }

    /// What the processor's `cr3` register has to hold for this address space.
    pub fn load(&self) -> (cr3: u64)
        ensures
            cr3 == self.root_entry(),
    {
        self.cr3.0
    }

    /// Whether this address space is in use, given what `cr3` holds.
    pub fn is_loaded(&self, cr3: u64) -> (loaded: bool)
        ensures
            loaded == (cr3 == self.root_entry()),
    {
        self.cr3.0 == cr3
    }

    fn find_slot(&self, range: VirtRange) -> (index: usize)
        ensures
            index == slot(self.zones(), range),
    {
        let mut i: usize = self.virt_map.len();
        assert(self.zones().take(i as int) =~= self.zones());
        while i > 0 && !self.virt_map[i - 1].0.is_before(&range)
            invariant
                0 <= i <= self.virt_map@.len(),
                slot(self.zones(), range) == slot(self.zones().take(i as int), range),
            decreases i,
        {
            assert(self.zones().take(i as int).drop_last() =~= self.zones().take(i - 1));
            assert(self.zones().take(i as int).last() == self.zones()[i - 1]);
            i = i - 1;
        }
        proof {
            if i > 0 {
                assert(self.zones().take(i as int).last() == self.zones()[i - 1]);
            }
        }
        i
    }

    /// The mapped range that holds an address.
    pub fn get_mapped_range(&self, addr: u64) -> (range: Option<VirtRange>)
        requires
            self.wf(),
        ensures
            range matches Some(r) ==> r.holds(addr) && exists|i: int|
                #![trigger self.zones()[i]]
                0 <= i < self.zones().len() && self.zones()[i].range == r,
            range is None ==> forall|i: int|
                #![trigger self.zones()[i]]
                0 <= i < self.zones().len() ==> !self.zones()[i].range.holds(addr),
    {
        let virt_zone = VirtRange::new(addr, u64::MAX);
        let p: usize = self.find_slot(virt_zone);
        proof {
            lemma_slot(self.zones(), self.max(), virt_zone);
            assert forall|i: int| p <= i < self.zones().len() implies !(
            #[trigger] self.zones()[i]).range.holds(addr) by {
                assert(self.zones()[i].wf(self.max()));
            }
        }
        if p == 0 {
            return None;
        }
        let zone = self.virt_map[p - 1].0;
        assert(self.zones()[p - 1].range == zone);
        if zone.contains(addr) {
            Some(zone)
        } else {
            assert forall|i: int| 0 <= i < self.zones().len() implies !(
            #[trigger] self.zones()[i]).range.holds(addr) by {
                if i < p - 1 {
                    assert(self.zones()[i].range.end() <= self.zones()[p - 1].range.addr);
                }
            }
            None
        }
    }

    /// Whether exactly this range is mapped.
    pub fn contains(&self, virt_zone: VirtRange) -> (mapped: bool)
        requires
            self.wf(),
        ensures
            mapped == exists|i: int|
                #![trigger self.zones()[i]]
                0 <= i < self.zones().len() && self.zones()[i].range == virt_zone,
    {
        let p: usize = self.find_slot(virt_zone);
        proof {
            lemma_slot(self.zones(), self.max(), virt_zone);
            if p < self.zones().len() {
                assert(self.zones()[p as int].range == self.virt_map@[p as int].0);
            }
            assert forall|i: int|
                0 <= i < self.zones().len() && (#[trigger] self.zones()[i]).range
                    == virt_zone implies i == p by {
                assert(self.zones()[i].wf(self.max()));
                if p < i {
                    assert(self.zones()[p as int].range.end() <= self.zones()[i].range.addr);
                    assert(self.zones()[p as int].wf(self.max()));
                }
            }
        }
        p < self.virt_map.len() && self.virt_map[p].0 == virt_zone
    }

    /// The lowest range of this size that can be mapped. The page at zero is left
    /// empty, so that null pointers fault.
    pub fn find_range(&self, size: u64) -> (range: Option<VirtRange>)
        requires
            self.wf(),
        ensures
            range matches Some(r) ==> r.size == size && is_lowest_fit(self.zones(), self.max(), r),
            range is None ==> nothing_fits(self.zones(), self.max(), size as int),
    {
        let mut laddr: u64 = PAGE_SIZE;
        let mut i: usize = 0;
        while i < self.virt_map.len()
            invariant
                self.wf(),
                0 <= i <= self.virt_map@.len(),
                self.virt_map@.len() == self.zones().len(),
                PAGE_SIZE <= laddr <= self.max(),
                forall|j: int| 0 <= j < i ==> (#[trigger] self.zones()[j]).range.end() <= laddr,
                forall|j: int|
                    i <= j < self.zones().len() ==> laddr <= (#[trigger] self.zones()[j]).range.addr,
                forall|r: VirtRange|
                    r.size == size && #[trigger] fits(self.zones(), self.max(), r) ==> laddr
                        <= r.addr,
            decreases self.virt_map@.len() - i,
        {
            let zone = self.virt_map[i].0;
            assert(self.zones()[i as int].range == zone);
            assert(self.zones()[i as int].wf(self.max()));
            let diff: u64 = zone.addr() - laddr;
            if diff >= size {
                let range = VirtRange::new(laddr, size);
                assert(fits(self.zones(), self.max(), range)) by {
                    assert forall|j: int| 0 <= j < self.zones().len() implies range.disjoint(
                        (#[trigger] self.zones()[j]).range,
                    ) by {
                        if j > i {
                            assert(self.zones()[i as int].range.end() <= self.zones()[j].range.addr);
                        }
                    }
                }
                return Some(range);
            }
            assert forall|r: VirtRange|
                r.size == size && #[trigger] fits(self.zones(), self.max(), r) implies zone.end()
                <= r.addr by {
                assert(r.disjoint(self.zones()[i as int].range));
            }
            assert forall|j: int| 0 <= j < i + 1 implies (#[trigger] self.zones()[j]).range.end()
                <= zone.end() by {}
            laddr = zone.addr() + zone.size();
            i = i + 1;
        }
        if self.max_map_addr - laddr < size {
            return None;
        }
        let range = VirtRange::new(laddr, size);
        assert(fits(self.zones(), self.max(), range));
        Some(range)
    }

    /// The free space to both sides of a range in bytes, or none where it overlaps
    /// its neighbours. A range that is mapped itself, or takes the place of a mapped one, is
    /// asked about with the mapped one excluded.
    pub fn free_space(&self, virt_zone: VirtRange, exclude: Option<VirtRange>) -> (space: Option<
        (u64, u64),
    >)
        requires
            self.wf(),
            virt_zone.wf(),
        ensures
            space == spec_free_space(self.zones(), self.max(), virt_zone, exclude),
    {
        let p: usize = self.find_slot(virt_zone);
        proof {
            lemma_slot(self.zones(), self.max(), virt_zone);
        }
        let mut prev: usize = p;
        let mut next: usize = p;
        if let Some(exclude) = exclude {
            if next < self.virt_map.len() && self.virt_map[next].0 == exclude {
                assert(self.zones()[p as int].range == exclude);
                next = next + 1;
            } else {
                assert(p < self.zones().len() ==> self.zones()[p as int].range
                    == self.virt_map@[p as int].0);
            }
            if prev > 0 && self.virt_map[prev - 1].0 == exclude {
                assert(self.zones()[prev - 1].range == exclude);
                prev = prev - 1;
            } else {
                assert(p > 0 ==> self.zones()[p - 1].range == self.virt_map@[p - 1].0);
            }
        }
        let prev_size: u64 = if prev > 0 {
            let left = self.virt_map[prev - 1].0;
            assert(self.zones()[prev - 1].range == left);
            assert(self.zones()[prev - 1].wf(self.max()));
            if left.end_addr() > virt_zone.addr() {
                return None;
            }
            virt_zone.addr() - left.end_addr()
        } else {
            if virt_zone.addr() < PAGE_SIZE {
                return None;
            }
            virt_zone.addr() - PAGE_SIZE
        };
        let next_size: u64 = if next < self.virt_map.len() {
            let right = self.virt_map[next].0;
            assert(range_at(self.zones(), next as int) == Some(right));
            assert(self.zones()[next as int].wf(self.max()));
            if virt_zone.end_addr() > right.addr() {
                return None;
            }
            right.addr() - virt_zone.end_addr()
        } else {
            if virt_zone.end_addr() > self.max_map_addr {
                return None;
            }
            self.max_map_addr - virt_zone.end_addr()
        };
        Some((prev_size, next_size))
    }
}

/// Pages whose entries are free, and that are apart, can be mapped one after the other.
proof fn lemma_maps_can_run(
    links: Map<Seq<int>, u64>,
    pages: Map<Seq<int>, u64>,
    actions: Seq<PageMappingAction>,
)
    requires
        paths_apart(actions),
        forall|k: int|
            0 <= k < actions.len() ==> (#[trigger] actions[k]) is ReserveFrame || actions[k]
                is MapFrame && can_do(links, pages, actions[k]),
    ensures
        can_run(links, pages, actions),
{
    assert forall|k: int| 0 <= k < actions.len() implies can_do(
        link_all(links, pages, actions.take(k)),
        map_all(pages, actions.take(k)),
        #[trigger] actions[k],
    ) by {
        lemma_stays_free(links, pages, actions, k, k);
    }
}

proof fn lemma_stays_free(
    links: Map<Seq<int>, u64>,
    pages: Map<Seq<int>, u64>,
    actions: Seq<PageMappingAction>,
    n: int,
    k: int,
)
    requires
        paths_apart(actions),
        forall|k: int|
            0 <= k < actions.len() ==> (#[trigger] actions[k]) is ReserveFrame || actions[k]
                is MapFrame && can_do(links, pages, actions[k]),
        0 <= n <= k < actions.len(),
    ensures
        can_do(
            link_all(links, pages, actions.take(n)),
            map_all(pages, actions.take(n)),
            actions[k],
        ),
    decreases n,
{
    if n == 0 {
        assert(actions.take(0) =~= Seq::empty());
        assert(actions[k] is ReserveFrame || can_do(links, pages, actions[k]));
    } else {
        lemma_stays_free(links, pages, actions, n - 1, k);
        assert(actions.take(n).drop_last() =~= actions.take(n - 1));
        assert(actions.take(n).last() == actions[n - 1]);
        let l = link_all(links, pages, actions.take(n - 1));
        let p = map_all(pages, actions.take(n - 1));
        match actions[n - 1] {
            PageMappingAction::MapFrame(pframe, vframe, flags) => {
                if actions[k] is MapFrame {
                    lemma_frame_path(vframe);
                    walk::lemma_map_keeps_free(
                        l,
                        p,
                        mapping::frame_path(vframe),
                        page_table::strip(leaf_entry(pframe, vframe, flags)),
                        mapping::frame_path(actions[k].frame()),
                    );
                }
            },
            _ => {
                assert(actions[n - 1] is ReserveFrame);
            },
        }
    }
}

/// Pages that are there, and that are apart, can be unmapped one after the other.
proof fn lemma_unmaps_can_run(
    links: Map<Seq<int>, u64>,
    pages: Map<Seq<int>, u64>,
    actions: Seq<PageMappingAction>,
)
    requires
        paths_apart(actions),
        forall|k: int|
            0 <= k < actions.len() ==> (#[trigger] actions[k]) is ReserveFrame || actions[k]
                is UnmapFrame && pages.contains_key(mapping::frame_path(actions[k].frame())),
    ensures
        can_run(links, pages, actions),
{
    assert forall|k: int| 0 <= k < actions.len() implies can_do(
        link_all(links, pages, actions.take(k)),
        map_all(pages, actions.take(k)),
        #[trigger] actions[k],
    ) by {
        if actions[k] is UnmapFrame {
            let done = actions.take(k);
            let path = mapping::frame_path(actions[k].frame());
            assert forall|j: int| 0 <= j < done.len() implies (
            #[trigger] done[j]) is ReserveFrame || done[j] is UnmapFrame by {
                assert(done[j] == actions[j]);
            }
            lemma_unmap_all(pages, done);
            if !map_all(pages, done).contains_key(path) {
                let j = choose|j: int|
                    0 <= j < done.len() && (#[trigger] done[j]) is UnmapFrame && path
                        == mapping::frame_path(done[j].frame());
                assert(done[j] == actions[j]);
                assert(walk::unrelated(
                    mapping::frame_path(actions[j].frame()),
                    mapping::frame_path(actions[k].frame()),
                ));
                assert(path.take(path.len() as int) =~= path);
                assert(walk::is_prefix(path, path));
            }
        }
    }
}

/// Carrying out an action keeps every table in a frame of its own, which its allocator knows
/// of.
proof fn lemma_does_keeps_frames(
    before: TableState,
    after: TableState,
    root: u64,
    action: PageMappingAction,
)
    requires
        does(before, after, root, action),
        walk::own_frames(before.tables),
        page_table::frames_of(before.tables).submap_of(before.live),
    ensures
        walk::own_frames(after.tables),
        page_table::frames_of(after.tables).submap_of(after.live),
        walk::keeps_frames(before.tables, after.tables),
{
    assert forall|t: u64| #[trigger] after.tables.dom().contains(t) implies {
        &&& before.tables.contains_key(t) ==> after.tables[t].frame == before.tables[t].frame
        &&& after.tables[t].frame.phys == t
        &&& after.live.dom().contains(t)
        &&& after.live[t] == after.tables[t].frame
    } by {
        if before.tables.dom().contains(t) {
            assert(before.tables[t].frame.phys == t);
            assert(page_table::frames_of(before.tables).dom().contains(t));
            assert(before.live.dom().contains(t));
        }
        assert(after.tables.contains_key(t));
        match action {
            PageMappingAction::MapFrame(_, _, _) => {
                let now = after.tables[t];
                if !before.tables.contains_key(t) {
                    assert(walk::has_first_entry(t, now));
                }
            },
            PageMappingAction::UnmapFrame(_) => {
                let now = after.tables[t];
                assert(now.frame == before.tables[t].frame);
            },
            PageMappingAction::ReserveFrame(_) => {},
        }
    }
    assert forall|t: u64| #[trigger] page_table::frames_of(after.tables).dom().contains(
        t,
    ) implies after.live.dom().contains(t) && page_table::frames_of(after.tables)[t]
        == after.live[t] by {
        assert(after.tables.dom().contains(t));
    }
    assert forall|t: u64| after.tables.contains_key(t) implies (
    #[trigger] after.tables[t]).frame.phys == t by {
        assert(after.tables.dom().contains(t));
    }
    assert forall|t: u64|
        before.tables.contains_key(t) && after.tables.contains_key(t) implies (
    #[trigger] after.tables[t]).frame == before.tables[t].frame by {
        assert(after.tables.dom().contains(t));
    }
}

/// Where no page is unmapped, tables are only added, and their frames with them.
pub proof fn lemma_ran_maps(
    before: TableState,
    after: TableState,
    root: u64,
    actions: Seq<PageMappingAction>,
)
    requires
        ran(before, after, root, actions),
        walk::own_frames(before.tables),
        page_table::frames_of(before.tables).submap_of(before.live),
        forall|k: int| 0 <= k < actions.len() ==> !((#[trigger] actions[k]) is UnmapFrame),
    ensures
        walk::own_frames(after.tables),
        page_table::frames_of(after.tables).submap_of(after.live),
        before.tables.dom().subset_of(after.tables.dom()),
        walk::keeps_frames(before.tables, after.tables),
        after.live == before.live.union_prefer_right(page_table::frames_of(after.tables)),
        after.returned == before.returned,
    decreases actions.len(),
{
    if actions.len() == 0 {
        assert forall|t: u64| before.tables.contains_key(t) implies before.live.contains_key(t)
            && before.live[t] == before.tables[t].frame by {
            assert(page_table::frames_of(before.tables).dom().contains(t));
            assert(before.live.dom().contains(t));
        }
        assert(after.live =~= before.live.union_prefer_right(
            page_table::frames_of(after.tables),
        ));
    } else {
        let rest = actions.drop_last();
        let mid = choose|mid: TableState|
            ran(before, mid, root, rest) && #[trigger] does(mid, after, root, actions.last());
        assert forall|k: int| 0 <= k < rest.len() implies !((#[trigger] rest[k]) is UnmapFrame) by {
            assert(rest[k] == actions[k]);
        }
        lemma_ran_maps(before, mid, root, rest);
        lemma_does_keeps_frames(mid, after, root, actions.last());
        assert(actions.last() == actions[actions.len() - 1]);
        assert(mid.tables.dom().subset_of(after.tables.dom()));
        assert forall|t: u64| #[trigger] before.tables.dom().contains(
            t,
        ) implies after.tables.dom().contains(t) by {
            assert(mid.tables.dom().contains(t));
        }
        assert forall|t: u64|
            before.tables.contains_key(t) && after.tables.contains_key(t) implies (
        #[trigger] after.tables[t]).frame == before.tables[t].frame by {
            assert(before.tables.dom().contains(t));
            assert(mid.tables.dom().contains(t));
            assert(mid.tables[t].frame == before.tables[t].frame);
        }
        assert forall|t: u64| mid.tables.contains_key(t) implies after.tables.contains_key(t) by {
            assert(mid.tables.dom().contains(t));
        }
        assert(after.live =~= before.live.union_prefer_right(
            page_table::frames_of(after.tables),
        ));
    }
}

/// Where no page is mapped, tables are only dropped, and their frames are given back.
pub proof fn lemma_ran_unmaps(
    before: TableState,
    after: TableState,
    root: u64,
    actions: Seq<PageMappingAction>,
)
    requires
        ran(before, after, root, actions),
        walk::own_frames(before.tables),
        page_table::frames_of(before.tables).submap_of(before.live),
        forall|k: int| 0 <= k < actions.len() ==> !((#[trigger] actions[k]) is MapFrame),
    ensures
        walk::own_frames(after.tables),
        page_table::frames_of(after.tables).submap_of(after.live),
        after.tables.dom().subset_of(before.tables.dom()),
        walk::keeps_frames(before.tables, after.tables),
        after.live == before.live.remove_keys(
            before.tables.dom().difference(after.tables.dom()),
        ),
        walk::gave_back(before.tables, after.tables, before.returned, after.returned),
    decreases actions.len(),
{
    if actions.len() == 0 {
        assert(before.returned.take(before.returned.len() as int) =~= before.returned);
        assert(after.live =~= before.live.remove_keys(
            before.tables.dom().difference(after.tables.dom()),
        ));
    } else {
        let rest = actions.drop_last();
        let action = actions.last();
        let mid = choose|mid: TableState|
            ran(before, mid, root, rest) && #[trigger] does(mid, after, root, action);
        assert forall|k: int| 0 <= k < rest.len() implies !((#[trigger] rest[k]) is MapFrame) by {
            assert(rest[k] == actions[k]);
        }
        lemma_ran_unmaps(before, mid, root, rest);
        lemma_does_keeps_frames(mid, after, root, action);
        assert(action == actions[actions.len() - 1]);
        assert forall|t: u64| #[trigger] after.tables.dom().contains(
            t,
        ) implies before.tables.dom().contains(t) && mid.tables.dom().contains(t) by {
            assert(mid.tables.dom().contains(t));
        }
        assert forall|t: u64| mid.tables.contains_key(t) implies (
        #[trigger] mid.tables[t]).frame == before.tables[t].frame && before.tables.contains_key(
            t,
        ) by {
            assert(mid.tables.dom().contains(t));
            assert(before.tables.dom().contains(t));
        }
        assert forall|t: u64|
            before.tables.contains_key(t) && after.tables.contains_key(t) implies (
        #[trigger] after.tables[t]).frame == before.tables[t].frame by {
            assert(after.tables.dom().contains(t));
            assert(mid.tables[t].frame == before.tables[t].frame);
        }
        if action is UnmapFrame {
            walk::lemma_gave_back_twice(
                before.tables,
                mid.tables,
                after.tables,
                before.returned,
                mid.returned,
                after.returned,
            );
            let gone = before.tables.dom().difference(after.tables.dom());
            assert forall|t: u64| #[trigger] after.live.dom().contains(t) <==> before.live.remove_keys(
                gone,
            ).dom().contains(t) by {
                assert(mid.tables.dom().contains(t) ==> before.tables.dom().contains(t));
            }
            assert(after.live =~= before.live.remove_keys(gone));
        }
    }
}

impl<T: FrameAllocator> VirtMapper<T> {
    /// Carries out what an iterator hands out, page by page. Pages are mapped, and
    /// tables are hung up for them, or pages are unmapped, and tables that are no longer
    /// needed are dropped. Pages that are only kept free are passed over. The address of
    /// each other page is added to `flush`: the processor has to forget its translation.
    fn map_internal(&mut self, iter: PageMappingIterator, flush: &mut Vec<u64>)
        requires
            old(self).tables_wf(),
            iter.wf(),
            can_run(old(self).links(), old(self).pages(), iter.remaining()),
        ensures
            final(self).tables_wf(),
            final(self).zones() == old(self).zones(),
            final(self).layouts_synced() == old(self).layouts_synced(),
            final(self).max() == old(self).max(),
            final(self).root_entry() == old(self).root_entry(),
            final(self).pages() == map_all(old(self).pages(), iter.remaining()),
            final(self).links() == link_all(
                old(self).links(),
                old(self).pages(),
                iter.remaining(),
            ),
            ran(old(self).state(), final(self).state(), old(self).root(), iter.remaining()),
            final(flush)@ == old(flush)@ + flushed(iter.remaining()),
    {
        let mut iter = iter;
        let ghost acts = iter.remaining();
        let ghost n: int = 0;
        let ghost root = self.root();
        let ghost before = *self;
        proof {
            assert(acts.take(0) =~= Seq::empty());
            assert(acts.skip(0) =~= acts);
            assert(flush@ =~= old(flush)@ + flushed(acts.take(0)));
        }
        loop
            invariant
                0 <= n <= acts.len(),
                iter.wf(),
                iter.remaining() == acts.skip(n),
                self.tables_wf(),
                self.root_entry() == before.root_entry(),
                root == self.root(),
                self.virt_map == before.virt_map,
                self.max_map_addr == before.max_map_addr,
                can_run(before.links(), before.pages(), acts),
                self.pages() == map_all(before.pages(), acts.take(n)),
                self.links() == link_all(before.links(), before.pages(), acts.take(n)),
                ran(before.state(), self.state(), root, acts.take(n)),
                flush@ == old(flush)@ + flushed(acts.take(n)),
            ensures
                n == acts.len(),
            decreases acts.len() - n,
        {
            let action = match iter.next() {
                Some(action) => action,
                None => {
                    break;
                },
            };
            let vframe = action.virt_frame();
            let ghost now = *self;
            let ghost done = acts.take(n + 1);
            proof {
                assert(acts.skip(n)[0] == acts[n]);
                assert(acts.skip(n).skip(1) =~= acts.skip(n + 1));
                assert(done.drop_last() =~= acts.take(n));
                assert(done.last() == acts[n]);
                lemma_frame_path(vframe);
                assert(can_do(self.links(), self.pages(), acts[n]));
            }
            let addr: u64 = vframe.start_addr();
            let nums = walk::indices(addr);
            let (depth, hf): (usize, u64) = match vframe {
                VirtFrame::K4(_) => (4, PageTableFlags::NONE),
                VirtFrame::M2(_) => (3, PageTableFlags::HUGE),
                VirtFrame::G1(_) => (2, PageTableFlags::HUGE),
            };
            let ghost path = mapping::frame_path(vframe);
            assert(Seq::new(depth as nat, |k: int| nums@[k] as int) =~= path);
            match action {
                PageMappingAction::MapFrame(pframe, _, flags) => {
                    let flags = PageTableFlags {
                        bits: flags.bits() | PageTableFlags::PRESENT | hf,
                    };
                    let leaf = PageTablePointer::new(pframe.start_addr(), flags);
                    proof {
                        walk::lemma_is_free(self.tables(), root, path);
                        lemma_leaf(pframe, vframe, action->MapFrame_2);
                    }
                    walk::map_page(
                        &mut self.mem,
                        self.cr3,
                        nums,
                        depth,
                        leaf,
                        &mut self.frame_allocer,
                    );
                    flush.push(addr);
                    proof {
                        assert(does(now.state(), self.state(), root, action));
                        walk::lemma_map_leads_on(
                            now.links(),
                            now.pages(),
                            path,
                            page_table::strip(leaf.0),
                            KERNEL_INDEX as int,
                        );
                    }
                },
                PageMappingAction::UnmapFrame(_) => {
                    assert(walk::is_page(now.tables(), root, path));
                    walk::unmap_page(&mut self.mem, self.cr3, nums, depth, &mut self.frame_allocer);
                    flush.push(addr);
                    proof {
                        assert(does(now.state(), self.state(), root, action));
                        walk::lemma_unmap_leads_on(
                            now.links(),
                            now.pages(),
                            path,
                            KERNEL_INDEX as int,
                        );
                    }
                },
                PageMappingAction::ReserveFrame(_) => {
                    assert(does(now.state(), self.state(), root, action));
                },
            }
            proof {
                lemma_does_keeps_frames(now.state(), self.state(), root, action);
                assert(ran(before.state(), now.state(), root, done.drop_last()));
                assert(ran(before.state(), self.state(), root, done));
                n = n + 1;
                assert(flush@ =~= old(flush)@ + flushed(acts.take(n)));
            }
        }
        proof {
            assert(acts.take(n) =~= acts);
            assert(self.zones() =~= old(self).zones());
        }
    }

    /// Whether a layout can be mapped at a range: the entries of the page tables that
    /// it needs are not in use.
    pub fn is_clear_at(&self, phys_zones: &VirtLayout, virt_zone: VirtRange) -> (clear: bool)
        requires
            self.wf(),
            mapping::ready(*phys_zones),
            layout::total(phys_zones.data@) == virt_zone.size,
            virt_zone.wf(),
        ensures
            clear == self.clear_at(phys_zones.data@, virt_zone),
    {
        if virt_zone.end_addr() > 0x8000_0000_0000 && virt_zone.addr() < 0xffff_8000_0000_0000 {
            return false;
        }
        let mut iter = PageMappingIterator::new(phys_zones, &virt_zone);
        let ghost acts = iter.remaining();
        let ghost n: int = 0;
        proof {
            lemma_fresh_zones(*phys_zones, virt_zone);
            assert(iter.zones@.skip(0) =~= iter.zones@);
            assert(acts.skip(0) =~= acts);
        }
        loop
            invariant
                self.wf(),
                0 <= n <= acts.len(),
                iter.wf(),
                iter.remaining() == acts.skip(n),
                canonical(virt_zone),
                acts == actions_for(phys_zones.data@, virt_zone.addr as int, true),
                forall|k: int|
                    0 <= k < n && !((#[trigger] acts[k]) is ReserveFrame) ==> walk::path_free(
                        self.tables(),
                        self.root(),
                        mapping::frame_path(acts[k].frame()),
                    ),
            ensures
                n == acts.len(),
            decreases acts.len() - n,
        {
            let action = match iter.next() {
                Some(action) => action,
                None => {
                    break;
                },
            };
            let vframe = action.virt_frame();
            proof {
                assert(acts.skip(n)[0] == acts[n]);
                assert(acts.skip(n).skip(1) =~= acts.skip(n + 1));
            }
            let is_reserve = matches!(action, PageMappingAction::ReserveFrame(_));
            let nums = walk::indices(vframe.start_addr());
            let depth: usize = match vframe {
                VirtFrame::K4(_) => 4,
                VirtFrame::M2(_) => 3,
                VirtFrame::G1(_) => 2,
            };
            assert(Seq::new(depth as nat, |k: int| nums@[k] as int) =~= mapping::frame_path(vframe));
            if !is_reserve && !walk::is_path_free(&self.mem, self.cr3, nums, depth) {
                assert(!walk::path_free(
                    self.tables(),
                    self.root(),
                    mapping::frame_path(acts[n].frame()),
                ));
                return false;
            }
            proof {
                n = n + 1;
            }
        }
        true
    }

    /// Maps a layout at a range that fits.
    fn map_at_free(&mut self, phys_zones: VirtLayout, virt_zone: VirtRange, flush: &mut Vec<u64>)
        requires
            old(self).wf(),
            mapping::ready(phys_zones),
            layout::total(phys_zones.data@) == virt_zone.size,
            virt_zone.size > 0,
            virt_zone.addr % PAGE_SIZE == 0,
            virt_zone.size % PAGE_SIZE == 0,
            fits(old(self).zones(), old(self).max(), virt_zone),
            old(self).clear_at(phys_zones.data@, virt_zone),
        ensures
            final(self).wf(),
            mapped_to(
                *old(self),
                *final(self),
                phys_zones.data@,
                phys_zones.alloc_type,
                virt_zone,
                old(flush)@,
                final(flush)@,
            ),
    {
        let mut phys_zones = phys_zones;
        let ghost elements = phys_zones.data@;
        let ghost acts = actions_for(elements, virt_zone.addr as int, true);
        let ghost zone = Zone { range: virt_zone, elements, alloc_type: phys_zones.alloc_type };
        let iter = PageMappingIterator::new(&phys_zones, &virt_zone);
        proof {
            lemma_fresh_zones(phys_zones, virt_zone);
            lemma_actions_for(elements, virt_zone, true);
            assert(iter.zones@.skip(0) =~= iter.zones@);
            assert(iter.remaining() == acts);
            assert forall|k: int| 0 <= k < acts.len() implies (
            #[trigger] acts[k]) is ReserveFrame || acts[k] is MapFrame && !self.pages().contains_key(
                mapping::frame_path(acts[k].frame()),
            ) by {
                if !(acts[k] is ReserveFrame) {
                    lemma_frame_path(acts[k].frame());
                    lemma_free_not_page(
                        self.tables(),
                        self.root(),
                        mapping::frame_path(acts[k].frame()),
                    );
                }
            }
            lemma_map_all(self.pages(), acts);
            assert(phys_zones.data@.skip(0) =~= phys_zones.data@);
            lemma_clear_can_run(*self, elements, virt_zone);
        }
        self.map_internal(iter, flush);
        let _ = phys_zones.sync_mem();
        let p: usize = self.find_slot(virt_zone);
        proof {
            lemma_slot(self.zones(), self.max(), virt_zone);
            lemma_insert_zone(self.zones(), self.max(), zone);
        }
        let ghost now = *self;
        self.virt_map.insert(p, (virt_zone, phys_zones));
        proof {
            assert(self.zones() =~= now.zones().insert(p as int, zone));
            assert(self.layouts_synced()) by {
                assert forall|i: int| 0 <= i < self.virt_map@.len() implies (
                #[trigger] self.virt_map@[i]).1.synced() && self.virt_map@[i].1.wf() by {
                    if i < p {
                        assert(self.virt_map@[i] == now.virt_map@[i]);
                    } else if i > p {
                        assert(self.virt_map@[i] == now.virt_map@[i - 1]);
                    }
                }
            }
            lemma_ran_maps(old(self).state(), self.state(), self.root(), acts);
            assert forall|i: int| 0 <= i < self.zones().len() implies canonical(
                (#[trigger] self.zones()[i]).range,
            ) && zone_mapped(self.pages(), self.zones()[i]) by {
                if i == p {
                    assert(self.zones()[i] == zone);
                } else {
                    let z = if i < p {
                        now.zones()[i]
                    } else {
                        now.zones()[i - 1]
                    };
                    assert(self.zones()[i] == z);
                    assert(zone_mapped(old(self).pages(), z));
                    lemma_mapped_stays(old(self).pages(), self.pages(), z);
                }
            }
            assert forall|path: Seq<int>| #[trigger]
                self.pages().contains_key(path) && walk::outside(
                    path,
                    KERNEL_INDEX as int,
                ) implies exists|i: int|
                0 <= i < self.zones().len() && is_page_of(#[trigger] self.zones()[i], path) by {
                if old(self).pages().contains_key(path) {
                    let i = choose|i: int|
                        0 <= i < now.zones().len() && is_page_of(#[trigger] now.zones()[i], path);
                    let j = if i < p { i } else { i + 1 };
                    assert(self.zones()[j] == now.zones()[i]);
                } else {
                    assert(is_page_of(self.zones()[p as int], path));
                }
            }
        }
    }

    /// Maps a layout at the lowest range that it fits in. In the kernel's half, the entries
    /// that it needs there must not be in use.
    pub fn map(&mut self, phys_zones: VirtLayout, flush: &mut Vec<u64>) -> (result: Result<
        VirtRange,
        MapError,
    >)
        requires
            old(self).wf(),
            mapping::ready(phys_zones),
            forall|range: VirtRange|
                #![trigger is_lowest_fit(old(self).zones(), old(self).max(), range)]
                range.size == layout::total(phys_zones.data@) && range.size > 0
                    && is_lowest_fit(old(self).zones(), old(self).max(), range)
                    && !below_kernel(range) ==> old(self).clear_at(phys_zones.data@, range),
        ensures
            final(self).wf(),
            match result {
                Ok(range) => {
                    &&& range.size == layout::total(phys_zones.data@)
                    &&& range.size > 0
                    &&& is_lowest_fit(old(self).zones(), old(self).max(), range)
                    &&& mapped_to(
                        *old(self),
                        *final(self),
                        phys_zones.data@,
                        phys_zones.alloc_type,
                        range,
                        old(flush)@,
                        final(flush)@,
                    )
                },
                Err(e) => {
                    &&& *final(self) == *old(self)
                    &&& final(flush)@ == old(flush)@
                    &&& e == MapError::ZeroSize || e == MapError::NoSpace
                    &&& e == MapError::ZeroSize <==> layout::total(phys_zones.data@) == 0
                    &&& e == MapError::NoSpace ==> nothing_fits(
                        old(self).zones(),
                        old(self).max(),
                        layout::total(phys_zones.data@),
                    )
                },
            },
    {
        let size: u64 = phys_zones.size();
        if size == 0 {
            return Err(MapError::ZeroSize);
        }
        let virt_zone = match self.find_range(size) {
            Some(virt_zone) => virt_zone,
            None => {
                return Err(MapError::NoSpace);
            },
        };
        proof {
            lemma_total_pages(phys_zones.data@);
            lemma_lowest_fit_aligned(self.zones(), self.max(), virt_zone);
            if below_kernel(virt_zone) {
                lemma_free_is_clear(*self, phys_zones.data@, virt_zone);
            }
        }
        self.map_at_free(phys_zones, virt_zone, flush);
        Ok(virt_zone)
    }

    /// Maps a layout at the pages of a range. In the kernel's half, the entries that it
    /// needs there must not be in use.
    pub fn map_at(
        &mut self,
        phys_zones: VirtLayout,
        virt_zone: VirtRange,
        flush: &mut Vec<u64>,
    ) -> (result: Result<VirtRange, MapError>)
        requires
            old(self).wf(),
            mapping::ready(phys_zones),
            virt_zone.end() + PAGE_SIZE - 1 <= u64::MAX,
            forall|range: VirtRange|
                #![trigger range.is_page_cover(virt_zone)]
                range.is_page_cover(virt_zone) && range.size == layout::total(
                    phys_zones.data@,
                ) && fits(old(self).zones(), old(self).max(), range) && !below_kernel(range)
                    ==> old(self).clear_at(phys_zones.data@, range),
        ensures
            final(self).wf(),
            match result {
                Ok(range) => {
                    &&& range.is_page_cover(virt_zone)
                    &&& range.size == layout::total(phys_zones.data@)
                    &&& range.size > 0
                    &&& fits(old(self).zones(), old(self).max(), range)
                    &&& mapped_to(
                        *old(self),
                        *final(self),
                        phys_zones.data@,
                        phys_zones.alloc_type,
                        range,
                        old(flush)@,
                        final(flush)@,
                    )
                },
                Err(e) => {
                    &&& *final(self) == *old(self)
                    &&& final(flush)@ == old(flush)@
                    &&& exists|range: VirtRange|
                        #![trigger range.is_page_cover(virt_zone)]
                        range.is_page_cover(virt_zone) && e == if range.size
                            != layout::total(phys_zones.data@) {
                            MapError::SizeMismatch
                        } else if range.size == 0 {
                            MapError::ZeroSize
                        } else {
                            MapError::InvalidZone
                        } && (e == MapError::InvalidZone ==> !fits(
                            old(self).zones(),
                            old(self).max(),
                            range,
                        ))
                },
            },
    {
        let cover = virt_zone.aligned();
        let size: u64 = phys_zones.size();
        if size != cover.size() {
            return Err(MapError::SizeMismatch);
        }
        if size == 0 {
            return Err(MapError::ZeroSize);
        }
        proof {
            lemma_free_space_is_fit(self.zones(), self.max(), cover);
        }
        if self.free_space(cover, None).is_none() {
            return Err(MapError::InvalidZone);
        }
        proof {
            if below_kernel(cover) {
                lemma_free_is_clear(*self, phys_zones.data@, cover);
            }
        }
        self.map_at_free(phys_zones, cover, flush);
        Ok(cover)
    }

    /// Unmaps a range that was mapped as a whole, and hands its layout back. Its pages leave
    /// the tables, and tables that are no longer needed are dropped.
    pub fn unmap(&mut self, virt_zone: VirtRange, flush: &mut Vec<u64>) -> (result: Result<
        VirtLayout,
        MapError,
    >)
        requires
            old(self).wf(),
        ensures
            final(self).wf(),
            match result {
                Ok(layout) => {
                    let p = slot(old(self).zones(), virt_zone);
                    let zone = old(self).zones()[p];
                    &&& 0 <= p < old(self).zones().len()
                    &&& zone.range == virt_zone
                    &&& layout.data@ == zone.elements
                    &&& layout.alloc_type == zone.alloc_type
                    &&& mapping::ready(layout)
                    &&& unmapped_from(
                        *old(self),
                        *final(self),
                        virt_zone,
                        old(flush)@,
                        final(flush)@,
                    )
                },
                Err(e) => {
                    &&& e == MapError::NotMapped
                    &&& forall|i: int|
                        #![trigger old(self).zones()[i]]
                        0 <= i < old(self).zones().len() ==> old(self).zones()[i].range
                            != virt_zone
                    &&& *final(self) == *old(self)
                    &&& final(flush)@ == old(flush)@
                },
            },
    {
        if !self.contains(virt_zone) {
            return Err(MapError::NotMapped);
        }
        let p: usize = self.find_slot(virt_zone);
        let ghost before = *self;
        proof {
            let i = choose|i: int|
                0 <= i < self.zones().len() && (#[trigger] self.zones()[i]).range == virt_zone;
            lemma_slot_of(self.zones(), self.max(), i);
            assert(i == p);
            assert(self.zones()[i].wf(self.max()));
            lemma_remove_zone(self.zones(), self.max(), p as int);
        }
        let ghost zone = self.zones()[p as int];
        let (_, mut phys_zones) = self.virt_map.remove(p);
        proof {
            assert(phys_zones == before.virt_map@[p as int].1);
            assert(self.zones() =~= before.zones().remove(p as int));
            assert(self.layouts_synced()) by {
                assert forall|i: int| 0 <= i < self.virt_map@.len() implies (
                #[trigger] self.virt_map@[i]).1.synced() && self.virt_map@[i].1.wf() by {
                    assert(self.virt_map@[i] == if i < p {
                        before.virt_map@[i]
                    } else {
                        before.virt_map@[i + 1]
                    });
                }
            }
        }
        let ghost acts = actions_for(zone.elements, virt_zone.addr as int, false);
        assert(mapping::mappable(phys_zones.dealloc_que@));
        let iter = PageMappingIterator::new_unmapper(&phys_zones, &virt_zone);
        proof {
            assert(phys_zones.dealloc_que@.reverse() =~= Seq::empty());
            assert(phys_zones.data@.take(phys_zones.dirty_index as int)
                + phys_zones.dealloc_que@.reverse() =~= zone.elements);
            assert(iter.zones@.skip(0) =~= iter.zones@);
            assert(iter.remaining() == acts);
            lemma_actions_for(zone.elements, virt_zone, false);
            lemma_actions_for(zone.elements, virt_zone, true);
            mapping::lemma_same_pages(zone.elements, virt_zone.addr as int);
            let maps = actions_for(zone.elements, virt_zone.addr as int, true);
            assert forall|k: int| 0 <= k < acts.len() implies (
            #[trigger] acts[k]) is ReserveFrame || acts[k] is UnmapFrame
                && before.pages().contains_key(mapping::frame_path(acts[k].frame())) by {
                assert(acts[k].frame() == maps[k].frame());
                assert(page_holds(before.pages(), maps[k]));
            }
        }
        proof {
            lemma_unmaps_can_run(before.links(), before.pages(), acts);
        }
        self.map_internal(iter, flush);
        phys_zones.touch();
        proof {
            lemma_ran_unmaps(before.state(), self.state(), self.root(), acts);
            lemma_unmap_keeps_zones(before.zones(), before.max(), before.pages(), p as int);
        }
        Ok(phys_zones)
    }

    /// Gives back all page tables, and hands back the memory of all layouts, in the
    /// order of the ranges. To be called when the address space is no longer needed.
    pub fn release(&mut self) -> (mem: Vec<Allocation>)
        requires
            old(self).wf(),
        ensures
            mem@ == owned_in(old(self).zones()),
            forall|m: Allocation|
                #![trigger mem@.to_multiset().count(m)]
                mem@.to_multiset().count(m) == Set::new(
                    |at: (int, int)|
                        0 <= at.0 < old(self).zones().len() && 0 <= at.1
                            < old(self).zones()[at.0].elements.len()
                            && old(self).zones()[at.0].elements[at.1].phys_data
                            == VirtLayoutElementType::AllocedMem(m),
                ).len(),
            final(self).zones() == old(self).zones(),
            final(self).tables() == old(self).tables(),
            final(self).root_entry() == old(self).root_entry(),
            final(self).max() == old(self).max(),
            final(self).frame_allocator().returned() == old(self).frame_allocator().returned()
                + walk::frames(old(self).tables(), old(self).root(), 3),
            final(self).frame_allocator().live() == walk::give_back(
                old(self).frame_allocator().live(),
                walk::frames(old(self).tables(), old(self).root(), 3),
            ),
    {
        let mut mem: Vec<Allocation> = Vec::new();
        let mut i: usize = 0;
        assert(self.zones().take(0) =~= Seq::empty());
        while i < self.virt_map.len()
            invariant
                self.wf(),
                *self == *old(self),
                0 <= i <= self.virt_map@.len(),
                mem@ == owned_in(self.zones().take(i as int)),
            decreases self.virt_map@.len() - i,
        {
            let mut owned = self.virt_map[i].1.dealloc();
            proof {
                assert(self.virt_map@[i as int].1.synced());
                assert(self.zones().take(i + 1).drop_last() =~= self.zones().take(i as int));
                assert(self.zones().take(i + 1).last() == self.zones()[i as int]);
                assert(owned@ =~= layout::owned_by(self.zones()[i as int].elements));
            }
            mem.append(&mut owned);
            i = i + 1;
        }
        assert(self.zones().take(i as int) =~= self.zones());
        proof {
            assert(walk::table_at(self.tables(), self.root(), Seq::empty()) == Some(self.root()));
            walk::lemma_tree_reachable(self.tables(), self.root(), Seq::empty(), 3);
            walk::lemma_frames_once(self.tables(), self.root(), 3);
            let frames = walk::frames(self.tables(), self.root(), 3);
            let live = self.frame_allocator().live();
            assert forall|k: int| 0 <= k < frames.len() implies live.contains_key(
                (#[trigger] frames[k]).phys,
            ) by {
                let t = frames[k].phys;
                assert(walk::is_reached(self.tables(), self.root(), 3, t));
                assert(self.tables().contains_key(t));
                assert(page_table::frames_of(self.tables()).dom().contains(t));
                assert(live.dom().contains(t));
            }
            walk::lemma_can_give_back(live, frames);
        }
        PageTable::dealloc_all(&self.mem, self.cr3, &mut self.frame_allocer);
        proof {
            assert(self.zones() =~= old(self).zones());
            assert forall|m: Allocation| #[trigger]
                mem@.to_multiset().count(m) == Set::new(
                    |at: (int, int)|
                        0 <= at.0 < old(self).zones().len() && 0 <= at.1
                            < old(self).zones()[at.0].elements.len()
                            && old(self).zones()[at.0].elements[at.1].phys_data
                            == VirtLayoutElementType::AllocedMem(m),
                ).len() by {
                lemma_all_memory_is_handed_back(old(self).zones(), m);
            }
        }
        mem
    }
}

/// A layout can be mapped where the entries that it needs are not in use.
proof fn lemma_clear_can_run<T: FrameAllocator>(
    mapper: VirtMapper<T>,
    elements: Seq<VirtLayoutElement>,
    range: VirtRange,
)
    requires
        mapping::mappable(elements),
        layout::total(elements) == range.size,
        range.wf(),
        mapper.clear_at(elements, range),
    ensures
        can_run(
            mapper.links(),
            mapper.pages(),
            actions_for(elements, range.addr as int, true),
        ),
{
    let actions = actions_for(elements, range.addr as int, true);
    lemma_actions_for(elements, range, true);
    assert forall|k: int| 0 <= k < actions.len() implies (
    #[trigger] actions[k]) is ReserveFrame || actions[k] is MapFrame && can_do(
        mapper.links(),
        mapper.pages(),
        actions[k],
    ) by {
        if !(actions[k] is ReserveFrame) {
            lemma_frame_path(actions[k].frame());
            walk::lemma_is_free(
                mapper.tables(),
                mapper.root(),
                mapping::frame_path(actions[k].frame()),
            );
        }
    }
    lemma_maps_can_run(mapper.links(), mapper.pages(), actions);
}

/// The memory that was allocated for the pieces of some ranges, in order.
pub open spec fn owned_in(zones: Seq<Zone>) -> Seq<Allocation>
    decreases zones.len(),
{
    if zones.len() == 0 {
        Seq::empty()
    } else {
        owned_in(zones.drop_last()) + layout::owned_by(zones.last().elements)
    }
}

proof fn lemma_owned_counted(zones: Seq<Zone>, n: int, k: int, mem: Allocation)
    requires
        0 <= n <= zones.len(),
        0 <= k,
        n < zones.len() ==> k <= zones[n].elements.len(),
        n == zones.len() ==> k == 0,
    ensures
        ({
            let stands = Set::new(
                |at: (int, int)|
                    0 <= at.0 <= n && at.0 < zones.len() && 0 <= at.1 && (at.0 < n || at.1 < k)
                        && at.1 < zones[at.0].elements.len()
                        && zones[at.0].elements[at.1].phys_data
                        == VirtLayoutElementType::AllocedMem(mem),
            );
            let owned = if k > 0 {
                owned_in(zones.take(n)) + layout::owned_by(zones[n].elements.take(k))
            } else {
                owned_in(zones.take(n))
            };
            &&& stands.finite()
            &&& owned.to_multiset().count(mem) == stands.len()
        }),
    decreases n, k,
{
    broadcast use vstd::seq_lib::group_to_multiset_ensures;

    let stands = Set::new(
        |at: (int, int)|
            0 <= at.0 <= n && at.0 < zones.len() && 0 <= at.1 && (at.0 < n || at.1 < k) && at.1
                < zones[at.0].elements.len() && zones[at.0].elements[at.1].phys_data
                == VirtLayoutElementType::AllocedMem(mem),
    );
    let base = owned_in(zones.take(n));
    if k > 0 {
        let elements = zones[n].elements.take(k);
        let before = Set::new(
            |at: (int, int)|
                0 <= at.0 <= n && at.0 < zones.len() && 0 <= at.1 && (at.0 < n || at.1 < k - 1)
                    && at.1 < zones[at.0].elements.len() && zones[at.0].elements[at.1].phys_data
                    == VirtLayoutElementType::AllocedMem(mem),
        );
        lemma_owned_counted(zones, n, k - 1, mem);
        layout::lemma_take_one_more(zones[n].elements, k - 1);
        let front = layout::owned_by(zones[n].elements.take(k - 1));
        if k == 1 {
            assert(zones[n].elements.take(0) =~= Seq::empty());
            assert(base + front =~= base);
        }
        match zones[n].elements[k - 1].phys_data {
            VirtLayoutElementType::AllocedMem(last) => {
                assert(base + layout::owned_by(elements) =~= (base + front).push(last));
            },
            _ => {},
        }
        if zones[n].elements[k - 1].phys_data == VirtLayoutElementType::AllocedMem(mem) {
            assert(stands =~= before.insert((n, k - 1)));
        } else {
            assert(stands =~= before);
        }
    } else if n > 0 {
        let zone = zones[n - 1];
        let len = zone.elements.len() as int;
        let before = Set::new(
            |at: (int, int)|
                0 <= at.0 <= n - 1 && at.0 < zones.len() && 0 <= at.1 && (at.0 < n - 1 || at.1
                    < len) && at.1 < zones[at.0].elements.len()
                    && zones[at.0].elements[at.1].phys_data == VirtLayoutElementType::AllocedMem(
                    mem,
                ),
        );
        lemma_owned_counted(zones, n - 1, len, mem);
        assert(zones.take(n).drop_last() =~= zones.take(n - 1));
        assert(zones.take(n).last() == zone);
        assert(zone.elements.take(len) =~= zone.elements);
        if len == 0 {
            assert(base =~= owned_in(zones.take(n - 1)));
        }
        assert(stands =~= before);
    } else {
        assert(zones.take(0) =~= Seq::empty());
        assert(!base.contains(mem));
        assert(stands =~= Set::empty());
    }
}

/// What is handed back with all mapped ranges is the memory that was allocated for their
/// pieces, whatever the type of a range: each allocation as often as it stands behind a
/// piece of one of them, and nothing else.
pub proof fn lemma_all_memory_is_handed_back(zones: Seq<Zone>, mem: Allocation)
    ensures
        Set::new(
            |at: (int, int)|
                0 <= at.0 < zones.len() && 0 <= at.1 < zones[at.0].elements.len()
                    && zones[at.0].elements[at.1].phys_data == VirtLayoutElementType::AllocedMem(
                    mem,
                ),
        ).finite(),
        owned_in(zones).to_multiset().count(mem) == Set::new(
            |at: (int, int)|
                0 <= at.0 < zones.len() && 0 <= at.1 < zones[at.0].elements.len()
                    && zones[at.0].elements[at.1].phys_data == VirtLayoutElementType::AllocedMem(
                    mem,
                ),
        ).len(),
{
    let n = zones.len() as int;
    lemma_owned_counted(zones, n, 0, mem);
    assert(zones.take(n) =~= zones);
    assert(Set::new(
        |at: (int, int)|
            0 <= at.0 < zones.len() && 0 <= at.1 < zones[at.0].elements.len()
                && zones[at.0].elements[at.1].phys_data == VirtLayoutElementType::AllocedMem(mem),
    ) =~= Set::new(
        |at: (int, int)|
            0 <= at.0 <= n && at.0 < zones.len() && 0 <= at.1 && (at.0 < n || at.1 < 0) && at.1
                < zones[at.0].elements.len() && zones[at.0].elements[at.1].phys_data
                == VirtLayoutElementType::AllocedMem(mem),
    ));
}

/// What mapping a layout at a range does: the range is put into its place among the
/// mapped ones, its pages are added to the pages and their addresses to `flush`.
pub open spec fn mapped_to<T: FrameAllocator>(
    before: VirtMapper<T>,
    after: VirtMapper<T>,
    elements: Seq<VirtLayoutElement>,
    alloc_type: AllocType,
    range: VirtRange,
    flush_before: Seq<u64>,
    flush_after: Seq<u64>,
) -> bool {
    let actions = actions_for(elements, range.addr as int, true);
    &&& after.zones() == before.zones().insert(
        slot(before.zones(), range),
        Zone { range, elements, alloc_type },
    )
    &&& after.max() == before.max()
    &&& after.root_entry() == before.root_entry()
    &&& after.pages() == map_all(before.pages(), actions)
    &&& after.links() == link_all(before.links(), before.pages(), actions)
    &&& ran(before.state(), after.state(), before.root(), actions)
    &&& before.tables().dom().subset_of(after.tables().dom())
    &&& walk::keeps_frames(before.tables(), after.tables())
    &&& after.frame_allocator().live()
        == before.frame_allocator().live().union_prefer_right(
        page_table::frames_of(after.tables()),
    )
    &&& after.frame_allocator().returned() == before.frame_allocator().returned()
    &&& flush_after == flush_before + flushed(actions)
}

/// Below a link there is a page, except in the kernel's half.
proof fn lemma_link_leads_to_page<T: FrameAllocator>(mapper: VirtMapper<T>, q: Seq<int>) -> (p: Seq<
    int,
>)
    requires
        mapper.tables_wf(),
        mapper.links().contains_key(q),
        walk::outside(q, KERNEL_INDEX as int),
    ensures
        mapper.pages().contains_key(p),
        walk::is_prefix(q, p),
    decreases 4 - q.len(),
{
    let i = choose|i: int| #[trigger] walk::in_use(mapper.links(), mapper.pages(), q.push(i));
    let c = q.push(i);
    assert(c.take(q.len() as int) =~= q);
    if mapper.pages().contains_key(c) {
        c
    } else {
        assert(walk::is_link(mapper.tables(), mapper.root(), c));
        let p = lemma_link_leads_to_page(mapper, c);
        assert(p.take(q.len() as int) =~= c.take(q.len() as int));
        p
    }
}

/// A range that is free can be used: where a layout fits between the mapped ranges, and not
/// in the kernel's half, the entries that it needs are not in use.
pub proof fn lemma_free_is_clear<T: FrameAllocator>(
    mapper: VirtMapper<T>,
    elements: Seq<VirtLayoutElement>,
    range: VirtRange,
)
    requires
        mapper.wf(),
        mapping::mappable(elements),
        layout::total(elements) == range.size,
        range.wf(),
        fits(mapper.zones(), mapper.max(), range),
        below_kernel(range),
    ensures
        mapper.clear_at(elements, range),
{
    let actions = actions_for(elements, range.addr as int, true);
    lemma_actions_for(elements, range, true);
    assert forall|k: int|
        0 <= k < actions.len() && !((#[trigger] actions[k]) is ReserveFrame) implies walk::path_free(
        mapper.tables(),
        mapper.root(),
        mapping::frame_path(actions[k].frame()),
    ) by {
        let frame = actions[k].frame();
        let path = mapping::frame_path(frame);
        lemma_frame_path(frame);
        assert(path[0] == walk::index_of(frame.start(), 0));
        assert forall|j: int| 1 <= j <= path.len() implies (#[trigger] walk::lookup(
            mapper.tables(),
            mapper.root(),
            path.take(j),
        ) matches Some(e) ==> if j < path.len() {
            !page_table::entry_present(e) || !page_table::entry_huge(e)
        } else {
            !page_table::entry_present(e)
        }) by {
            let q = path.take(j);
            assert(q[0] == path[0]);
            assert(walk::entry_path(q)) by {
                assert forall|l: int| 0 <= l < q.len() implies 0 <= #[trigger] q[l]
                    < page_table::ENTRIES by {
                    assert(q[l] == path[l]);
                }
            }
            if mapper.pages().contains_key(q) {
                lemma_page_apart(mapper, range, frame, q);
            } else if mapper.links().contains_key(q) && j == path.len() {
                let p = lemma_link_leads_to_page(mapper, q);
                assert(q =~= path);
                assert(p[0] == p.take(q.len() as int)[0]);
                lemma_page_apart(mapper, range, frame, p);
            }
        }
    }
}

/// A page on the way to a frame of a free range, or behind it, would belong to a mapped
/// range that overlaps it.
proof fn lemma_page_apart<T: FrameAllocator>(
    mapper: VirtMapper<T>,
    range: VirtRange,
    frame: VirtFrame,
    p: Seq<int>,
)
    requires
        mapper.wf(),
        range.wf(),
        fits(mapper.zones(), mapper.max(), range),
        canonical(range),
        range.addr <= frame.start(),
        frame.end() <= range.end(),
        frame.start() % frame.page().bytes() == 0,
        mapper.pages().contains_key(p),
        walk::outside(p, KERNEL_INDEX as int),
    ensures
        !walk::is_prefix(p, mapping::frame_path(frame)),
        !walk::is_prefix(mapping::frame_path(frame), p),
{
    let path = mapping::frame_path(frame);
    if walk::is_prefix(p, path) || walk::is_prefix(path, p) {
        let i = choose|i: int|
            0 <= i < mapper.zones().len() && is_page_of(#[trigger] mapper.zones()[i], p);
        let zone = mapper.zones()[i];
        assert(zone.wf(mapper.max()));
        lemma_actions_for(zone.elements, zone.range, true);
        let actions = actions_for(zone.elements, zone.range.addr as int, true);
        let k = choose|k: int|
            0 <= k < actions.len() && (#[trigger] actions[k]) is MapFrame && p
                == mapping::frame_path(actions[k].frame());
        let other = actions[k].frame();
        lemma_frame_path(other);
        lemma_frame_path(frame);
        if walk::is_prefix(p, path) {
            assert(walk::path_of(frame.start(), mapping::depth_of(other.page())) =~= p) by {
                assert(path.take(p.len() as int) == p);
            }
            mapping::lemma_frame_of_path(other, frame.start());
        } else {
            assert(walk::path_of(other.start(), mapping::depth_of(frame.page())) =~= path) by {
                assert(p.take(path.len() as int) == path);
            }
            mapping::lemma_frame_of_path(frame, other.start());
        }
    }
}

/// A mapped range stands where it is looked for.
pub proof fn lemma_slot_of(zones: Seq<Zone>, max: u64, i: int)
    requires
        zones_ok(zones, max),
        0 <= i < zones.len(),
    ensures
        slot(zones, zones[i].range) == i,
{
    let range = zones[i].range;
    lemma_slot(zones, max, range);
    assert(zones[i].wf(max));
    let p = slot(zones, range);
    if p < i {
        assert(zones[p].range.end() <= range.addr);
        assert(zones[p].wf(max));
    }
}

/// Unmapping a range removes the pages that were mapped for it and no others.
pub proof fn lemma_unmap_removes_pages<T: FrameAllocator>(
    before: VirtMapper<T>,
    after: VirtMapper<T>,
    i: int,
    flush_before: Seq<u64>,
    flush_after: Seq<u64>,
)
    requires
        before.wf(),
        0 <= i < before.zones().len(),
        unmapped_from(before, after, before.zones()[i].range, flush_before, flush_after),
    ensures
        after.zones() == before.zones().remove(i),
        after.pages().submap_of(before.pages()),
        ({
            let zone = before.zones()[i];
            let actions = actions_for(zone.elements, zone.range.addr as int, true);
            &&& forall|k: int|
                0 <= k < actions.len() && (#[trigger] actions[k]) is MapFrame
                    ==> before.pages().contains_key(mapping::frame_path(actions[k].frame()))
                    && !after.pages().contains_key(mapping::frame_path(actions[k].frame()))
            &&& forall|p: Seq<int>| #[trigger]
                before.pages().contains_key(p) && !after.pages().contains_key(p) ==> exists|k: int|
                    0 <= k < actions.len() && (#[trigger] actions[k]) is MapFrame && p
                        == mapping::frame_path(actions[k].frame())
        }),
{
    let zone = before.zones()[i];
    let range = zone.range;
    lemma_slot_of(before.zones(), before.max(), i);
    assert(zone.wf(before.max()));
    let maps = actions_for(zone.elements, range.addr as int, true);
    let unmaps = actions_for(zone.elements, range.addr as int, false);
    lemma_actions_for(zone.elements, range, true);
    lemma_actions_for(zone.elements, range, false);
    mapping::lemma_same_pages(zone.elements, range.addr as int);
    lemma_unmap_all(before.pages(), unmaps);
    assert(zone_mapped(before.pages(), zone));
    assert forall|k: int| 0 <= k < maps.len() && (
    #[trigger] maps[k]) is MapFrame implies before.pages().contains_key(
        mapping::frame_path(maps[k].frame()),
    ) && !after.pages().contains_key(mapping::frame_path(maps[k].frame())) by {
        assert(page_holds(before.pages(), maps[k]));
        assert(unmaps[k].frame() == maps[k].frame());
    }
    assert forall|p: Seq<int>| #[trigger]
        before.pages().contains_key(p) && !after.pages().contains_key(p) implies exists|k: int|
        0 <= k < maps.len() && (#[trigger] maps[k]) is MapFrame && p == mapping::frame_path(
            maps[k].frame(),
        ) by {
        let k = choose|k: int|
            0 <= k < unmaps.len() && (#[trigger] unmaps[k]) is UnmapFrame && p
                == mapping::frame_path(unmaps[k].frame());
        assert(maps[k].frame() == unmaps[k].frame());
        assert(maps[k] is MapFrame);
    }
}

/// Outside the kernel's half, the pages tell which tables there are: those on the way to a
/// page.
pub proof fn lemma_tables_follow_pages<T: FrameAllocator>(
    a: VirtMapper<T>,
    b: VirtMapper<T>,
    q: Seq<int>,
)
    requires
        a.tables_wf(),
        b.tables_wf(),
        a.pages() == b.pages(),
        walk::outside(q, KERNEL_INDEX as int),
    ensures
        a.links().contains_key(q) == b.links().contains_key(q),
{
    if a.links().contains_key(q) {
        let p = lemma_link_leads_to_page(a, q);
        assert(walk::is_page(b.tables(), b.root(), p));
        assert(walk::is_link(a.tables(), a.root(), q));
        if q.len() == p.len() {
            assert(p.take(q.len() as int) =~= p);
        }
        walk::lemma_way_is_link(b.tables(), b.root(), p, q.len() as int);
    }
    if b.links().contains_key(q) {
        let p = lemma_link_leads_to_page(b, q);
        assert(walk::is_page(a.tables(), a.root(), p));
        assert(walk::is_link(b.tables(), b.root(), q));
        if q.len() == p.len() {
            assert(p.take(q.len() as int) =~= p);
        }
        walk::lemma_way_is_link(a.tables(), a.root(), p, q.len() as int);
    }
}

/// Unmapping a range right after it was mapped brings back the pages and the mapped
/// ranges that were there before, and outside the kernel's half the tables on the way to
/// them.
pub proof fn lemma_unmap_undoes_map<T: FrameAllocator>(
    before: VirtMapper<T>,
    mapped: VirtMapper<T>,
    after: VirtMapper<T>,
    elements: Seq<VirtLayoutElement>,
    alloc_type: AllocType,
    range: VirtRange,
    flushes: Seq<Seq<u64>>,
)
    requires
        before.wf(),
        mapped.wf(),
        mapping::mappable(elements),
        layout::total(elements) == range.size,
        range.wf(),
        before.clear_at(elements, range),
        flushes.len() == 3,
        mapped_to(before, mapped, elements, alloc_type, range, flushes[0], flushes[1]),
        unmapped_from(mapped, after, range, flushes[1], flushes[2]),
        after.wf(),
    ensures
        after.zones() == before.zones(),
        after.pages() == before.pages(),
        forall|q: Seq<int>| #[trigger]
            walk::outside(q, KERNEL_INDEX as int) ==> after.links().contains_key(q)
                == before.links().contains_key(q),
        after.max() == before.max(),
        after.root_entry() == before.root_entry(),
{
    let i = slot(before.zones(), range);
    lemma_slot(before.zones(), before.max(), range);
    let zone = Zone { range, elements, alloc_type };
    assert(mapped.zones()[i] == zone);
    lemma_map_keeps_pages(
        before,
        mapped,
        elements,
        alloc_type,
        range,
        flushes[0],
        flushes[1],
    );
    lemma_unmap_removes_pages(mapped, after, i, flushes[1], flushes[2]);
    assert(after.zones() =~= before.zones());
    let actions = actions_for(elements, range.addr as int, true);
    assert forall|p: Seq<int>| #[trigger] after.pages().dom().contains(
        p,
    ) == before.pages().dom().contains(p) by {
        if before.pages().dom().contains(p) {
            assert(mapped.pages().dom().contains(p));
            if !after.pages().contains_key(p) {
                let k = choose|k: int|
                    0 <= k < actions.len() && (#[trigger] actions[k]) is MapFrame && p
                        == mapping::frame_path(actions[k].frame());
                lemma_frame_path(actions[k].frame());
                lemma_free_not_page(before.tables(), before.root(), p);
            }
        } else if after.pages().dom().contains(p) {
            assert(mapped.pages().dom().contains(p));
            assert(mapped.pages().contains_key(p));
            let k = choose|k: int|
                0 <= k < actions.len() && (#[trigger] actions[k]) is MapFrame && p
                    == mapping::frame_path(actions[k].frame());
            assert(!after.pages().contains_key(mapping::frame_path(actions[k].frame())));
        }
    }
    assert forall|p: Seq<int>| #[trigger] after.pages().dom().contains(p) implies after.pages()[p]
        == before.pages()[p] by {
        assert(mapped.pages().dom().contains(p));
        assert(before.pages().dom().contains(p));
    }
    assert(after.pages() =~= before.pages());
    assert forall|q: Seq<int>| #[trigger]
        walk::outside(q, KERNEL_INDEX as int) implies after.links().contains_key(q)
        == before.links().contains_key(q) by {
        lemma_tables_follow_pages(before, after, q);
    }
}

/// Mapping a layout keeps every page that was mapped before, and adds the pages of
/// the layout and no others.
pub proof fn lemma_map_keeps_pages<T: FrameAllocator>(
    before: VirtMapper<T>,
    after: VirtMapper<T>,
    elements: Seq<VirtLayoutElement>,
    alloc_type: AllocType,
    range: VirtRange,
    flush_before: Seq<u64>,
    flush_after: Seq<u64>,
)
    requires
        before.wf(),
        mapping::mappable(elements),
        layout::total(elements) == range.size,
        range.wf(),
        before.clear_at(elements, range),
        mapped_to(before, after, elements, alloc_type, range, flush_before, flush_after),
    ensures
        before.pages().submap_of(after.pages()),
        forall|p: Seq<int>|
            #[trigger] after.pages().contains_key(p) ==> before.pages().contains_key(p) || exists|
                k: int,
            |
                0 <= k < actions_for(elements, range.addr as int, true).len() && (
                #[trigger] actions_for(elements, range.addr as int, true)[k]) is MapFrame && p
                    == mapping::frame_path(
                    actions_for(elements, range.addr as int, true)[k].frame(),
                ),
        zone_mapped(
            after.pages(),
            Zone { range, elements, alloc_type },
        ),
{
    let actions = actions_for(elements, range.addr as int, true);
    lemma_actions_for(elements, range, true);
    assert forall|k: int| 0 <= k < actions.len() implies (
    #[trigger] actions[k]) is ReserveFrame || actions[k] is MapFrame
        && !before.pages().contains_key(mapping::frame_path(actions[k].frame())) by {
        if !(actions[k] is ReserveFrame) {
            lemma_frame_path(actions[k].frame());
            lemma_free_not_page(
                before.tables(),
                before.root(),
                mapping::frame_path(actions[k].frame()),
            );
        }
    }
    lemma_map_all(before.pages(), actions);
}

/// What unmapping a range does: the range is no longer among the mapped ones, its pages are
/// taken from the pages and their addresses are added to `flush`. Tables that have no entry
/// in use any more are dropped and given back.
pub open spec fn unmapped_from<T: FrameAllocator>(
    before: VirtMapper<T>,
    after: VirtMapper<T>,
    range: VirtRange,
    flush_before: Seq<u64>,
    flush_after: Seq<u64>,
) -> bool {
    let p = slot(before.zones(), range);
    let actions = actions_for(before.zones()[p].elements, range.addr as int, false);
    &&& after.zones() == before.zones().remove(p)
    &&& after.max() == before.max()
    &&& after.root_entry() == before.root_entry()
    &&& after.pages() == map_all(before.pages(), actions)
    &&& after.links() == link_all(before.links(), before.pages(), actions)
    &&& ran(before.state(), after.state(), before.root(), actions)
    &&& after.tables().dom().subset_of(before.tables().dom())
    &&& walk::keeps_frames(before.tables(), after.tables())
    &&& after.frame_allocator().live() == before.frame_allocator().live().remove_keys(
        before.tables().dom().difference(after.tables().dom()),
    )
    &&& walk::gave_back(
        before.tables(),
        after.tables(),
        before.frame_allocator().returned(),
        after.frame_allocator().returned(),
    )
    &&& flush_after == flush_before + flushed(actions)
}

/// A layout of which nothing is mapped is mapped from the start of the range.
proof fn lemma_fresh_zones(phys_zones: VirtLayout, range: VirtRange)
    requires
        phys_zones.fresh(),
    ensures
        mapping::mappable(phys_zones.dealloc_que@),
        mapping::zones_down_from(
            phys_zones.dealloc_que@,
            range.addr + phys_zones.clean_size,
        ) + mapping::zones_from(
            phys_zones.data@.skip(phys_zones.dirty_index as int),
            range.addr + layout::total(phys_zones.data@.take(phys_zones.dirty_index as int)),
            true,
        ) == mapping::zones_from(phys_zones.data@, range.addr as int, true),
{
    assert(phys_zones.data@.skip(0) =~= phys_zones.data@);
    assert(phys_zones.data@.take(0) =~= Seq::empty());
    assert(mapping::zones_down_from(phys_zones.dealloc_que@, range.addr + phys_zones.clean_size)
        + mapping::zones_from(phys_zones.data@, range.addr as int, true) =~= mapping::zones_from(
        phys_zones.data@,
        range.addr as int,
        true,
    ));
}

proof fn lemma_mapped_stays(before: Map<Seq<int>, u64>, after: Map<Seq<int>, u64>, zone: Zone)
    requires
        zone_mapped(before, zone),
        before.submap_of(after),
    ensures
        zone_mapped(after, zone),
{
    let actions = actions_for(zone.elements, zone.range.addr as int, true);
    assert forall|k: int| 0 <= k < actions.len() implies page_holds(
        after,
        #[trigger] actions[k],
    ) by {
        assert(page_holds(before, actions[k]));
        if actions[k] is MapFrame {
            assert(before.dom().contains(mapping::frame_path(actions[k].frame())));
            assert(after.dom().contains(mapping::frame_path(actions[k].frame())));
        }
    }
}

/// Pieces of whole pages take whole pages.
proof fn lemma_total_pages(elements: Seq<VirtLayoutElement>)
    requires
        forall|i: int| 0 <= i < elements.len() ==> (#[trigger] elements[i]).wf(),
    ensures
        layout::total(elements) % (PAGE_SIZE as int) == 0,
    decreases elements.len(),
{
    if elements.len() > 0 {
        let rest = elements.drop_last();
        assert forall|i: int| 0 <= i < rest.len() implies (#[trigger] rest[i]).wf() by {
            assert(rest[i] == elements[i]);
        }
        lemma_total_pages(rest);
        assert(elements[elements.len() - 1].wf());
    }
}

/// The lowest range that fits starts at a page.
proof fn lemma_lowest_fit_aligned(zones: Seq<Zone>, max: u64, range: VirtRange)
    requires
        zones_ok(zones, max),
        is_lowest_fit(zones, max, range),
        range.size > 0,
    ensures
        range.addr % PAGE_SIZE == 0,
{
    if range.addr % PAGE_SIZE != 0 {
        let lower = VirtRange { addr: (range.addr - range.addr % PAGE_SIZE) as u64, size: range.size };
        assert forall|i: int| 0 <= i < zones.len() implies lower.disjoint(
            (#[trigger] zones[i]).range,
        ) by {
            assert(range.disjoint(zones[i].range));
            assert(zones[i].wf(max));
        }
        assert(fits(zones, max, lower));
    }
}

proof fn lemma_none_valid()
    ensures
        (PageTableFlags { bits: PageTableFlags::NONE }).valid(),
{
    assert(0u64 & 0x8000_0000_0000_01ff == 0) by (bit_vector);
}

proof fn lemma_none_or_present()
    ensures
        PageTableFlags::NONE | PageTableFlags::PRESENT == PageTableFlags::PRESENT,
{
    assert(0u64 | 1 == 1) by (bit_vector);
}

} // verus!
