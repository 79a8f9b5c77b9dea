//! The pages that have to be mapped and unmapped for a layout.
use vstd::prelude::*;
use crate::mem::addr;
use crate::mem::addr::{PageSize, PhysFrame, PhysRange, VirtFrame, VirtRange, PAGE_SIZE};
use crate::mem::flags::PageTableFlags;
use crate::mem::layout;
use crate::mem::layout::{VirtLayout, VirtLayoutElement, VirtLayoutElementType};
use crate::mem::walk;

verus! {

/// What is to be done with one page.
#[derive(Debug, Clone, Copy, PartialEq, Eq, Structural)]
pub enum PageMappingAction {
    MapFrame(PhysFrame, VirtFrame, PageTableFlags),
    UnmapFrame(VirtFrame),
    /// A page that is kept free and not mapped. Its frame starts at zero.
    ReserveFrame(VirtFrame),
}

impl PageMappingAction {
    pub open spec fn frame(self) -> VirtFrame {
        match self {
            PageMappingAction::MapFrame(_, vframe, _) => vframe,
            PageMappingAction::UnmapFrame(vframe) => vframe,
            PageMappingAction::ReserveFrame(vframe) => vframe,
        }
    }

    pub fn virt_frame(&self) -> (frame: VirtFrame)
        ensures
            frame == self.frame(),
    {
        match *self {
            PageMappingAction::MapFrame(_, vframe, _) => vframe,
            PageMappingAction::UnmapFrame(vframe) => vframe,
            PageMappingAction::ReserveFrame(vframe) => vframe,
        }
    }
}

/// A range of physical memory and the range of addresses that it is mapped at, or a range
/// of addresses that is only kept free.
#[derive(Debug, Clone, Copy, PartialEq, Eq, Structural)]
pub struct Pmit {
    /// As long as `virt_zone`. It stands for no memory where the range is only kept free.
    pub phys_zone: PhysRange,
    pub virt_zone: VirtRange,
    pub flags: PageTableFlags,
    /// Whether the range is only kept free.
    pub reserved: bool,
}

impl Pmit {
    pub open spec fn wf(self) -> bool {
        &&& self.phys_zone.size == self.virt_zone.size
        &&& self.phys_zone.wf()
        &&& self.virt_zone.wf()
    }

    /// The largest page that can be taken off the front of both ranges.
    pub open spec fn spec_take_size(self) -> Option<PageSize> {
        match (
            addr::take_size(self.phys_zone.addr, self.phys_zone.size),
            addr::take_size(self.virt_zone.addr, self.virt_zone.size),
        ) {
            (Some(phys), Some(virt)) => Some(phys.spec_smaller(virt)),
            _ => None,
        }
    }

    /// Both ranges without their first page.
    pub open spec fn after(self, page: PageSize) -> Pmit {
        Pmit {
            phys_zone: self.phys_zone.after(page),
            virt_zone: self.virt_zone.after(page),
            flags: self.flags,
            reserved: self.reserved,
        }
    }

    /// What is to be done with the first page.
    pub open spec fn action(self, page: PageSize) -> PageMappingAction {
        let pframe = PhysFrame::spec_new(self.phys_zone.addr, page);
        let vframe = VirtFrame::spec_new(self.virt_zone.addr, page);
        if self.reserved {
            PageMappingAction::ReserveFrame(VirtFrame::spec_new(0, page))
        } else if self.flags.spec_present() {
            PageMappingAction::MapFrame(pframe, vframe, self.flags)
        } else {
            PageMappingAction::UnmapFrame(vframe)
        }
    }

    /// Whether an action is about a page of these ranges: the page lies at a
    /// multiple of its size, and the frame behind it as far into the memory as the
    /// page into the addresses. A page that is only kept free starts at zero.
    pub open spec fn has_action(self, action: PageMappingAction) -> bool {
        let frame = action.frame();
        if self.reserved {
            action is ReserveFrame && frame.start() == 0
        } else {
            &&& frame.start() % frame.page().bytes() == 0
            &&& self.virt_zone.addr <= frame.start()
            &&& frame.end() <= self.virt_zone.end()
            &&& action == if self.flags.spec_present() {
                PageMappingAction::MapFrame(
                    PhysFrame::spec_new(
                        (self.phys_zone.addr + (frame.start() - self.virt_zone.addr)) as u64,
                        frame.page(),
                    ),
                    frame,
                    self.flags,
                )
            } else {
                PageMappingAction::UnmapFrame(frame)
            }
            &&& (self.phys_zone.addr + (frame.start() - self.virt_zone.addr))
                % (frame.page().bytes() as int) == 0
        }
    }

    /// What is to be done with all pages: the largest that fits is taken off the
    /// front, again and again.
    pub open spec fn actions(self) -> Seq<PageMappingAction>
        decreases self.virt_zone.size,
    {
        match self.spec_take_size() {
            Some(page) => {
                if page.bytes() <= self.virt_zone.size {
                    seq![self.action(page)] + self.after(page).actions()
                } else {
                    Seq::empty()
                }
            },
            None => Seq::empty(),
        }
    }

    pub fn new(phys_zone: PhysRange, virt_zone: VirtRange, flags: PageTableFlags) -> (pmit: Self)
        requires
            phys_zone.size == virt_zone.size,
        ensures
            pmit == (Pmit { phys_zone, virt_zone, flags, reserved: false }),
    {
        Pmit { phys_zone, virt_zone, flags, reserved: false }
    }

    /// A range of addresses that is only kept free.
    pub open spec fn spec_reserve(virt_zone: VirtRange) -> Pmit {
        Pmit {
            phys_zone: PhysRange { addr: virt_zone.addr, size: virt_zone.size },
            virt_zone,
            flags: PageTableFlags { bits: PageTableFlags::NONE },
            reserved: true,
        }
    }

    /// A range of addresses that is only kept free.
    pub fn reserve(virt_zone: VirtRange) -> (pmit: Self)
        ensures
            pmit == Pmit::spec_reserve(virt_zone),
    {
        Pmit {
            phys_zone: PhysRange::new(virt_zone.addr(), virt_zone.size()),
            virt_zone,
            flags: PageTableFlags { bits: PageTableFlags::NONE },
            reserved: true,
        }
    }

    pub fn present(&self) -> (present: bool)
        ensures
            present == self.flags.spec_present(),
    {
        self.flags.present()
    }

    pub fn get_take_size(&self) -> (page: Option<PageSize>)
        ensures
            page == self.spec_take_size(),
    {
        match (self.phys_zone.get_take_size(), self.virt_zone.get_take_size()) {
            (Some(phys), Some(virt)) => Some(phys.smaller(virt)),
            _ => None,
        }
    }

    /// Takes a page off the front of both ranges, if one of this size can be taken
    /// off both.
    pub fn take(&mut self, size: PageSize) -> (taken: Option<(PhysFrame, VirtFrame)>)
        requires
            old(self).wf(),
        ensures
            final(self).wf(),
            taken is Some <==> (old(self).spec_take_size() matches Some(largest) && size.bytes()
                <= largest.bytes()),
            taken matches Some(frames) ==> {
                &&& frames.0 == PhysFrame::spec_new(old(self).phys_zone.addr, size)
                &&& frames.1 == VirtFrame::spec_new(old(self).virt_zone.addr, size)
                &&& *final(self) == old(self).after(size)
            },
            taken is None ==> *final(self) == *old(self),
    {
        let take_size = match self.get_take_size() {
            Some(take_size) => take_size,
            None => {
                return None;
            },
        };
        if size.as_u64() > take_size.as_u64() {
            None
        } else {
            let pframe = self.phys_zone.take(size).unwrap();
            let vframe = self.virt_zone.take(size).unwrap();
            Some((pframe, vframe))
        }
    }
}

/// The ranges of some pieces, one after the other from `vaddr`. A piece that maps nothing
/// has a range that is only kept free.
pub open spec fn zones_from(elements: Seq<VirtLayoutElement>, vaddr: int, map: bool) -> Seq<Pmit>
    decreases elements.len(),
{
    if elements.len() == 0 {
        Seq::empty()
    } else {
        let rest = elements.drop_last();
        zones_from(rest, vaddr, map).push(
            zone_of(elements.last(), vaddr + layout::total(rest), map),
        )
    }
}

/// The range that a piece is mapped at, or unmapped from.
pub open spec fn zone_of(element: VirtLayoutElement, vaddr: int, map: bool) -> Pmit {
    let virt_zone = VirtRange { addr: vaddr as u64, size: element.map_size };
    match element.zone() {
        Some(phys_zone) => Pmit {
            phys_zone,
            virt_zone,
            flags: if map {
                element.flags
            } else {
                PageTableFlags { bits: PageTableFlags::NONE }
            },
            reserved: false,
        },
        None => Pmit::spec_reserve(virt_zone),
    }
}

/// The range that a piece is mapped at, or unmapped from.
fn zone_at(element: &VirtLayoutElement, vaddr: u64, map: bool) -> (zone: Pmit)
    requires
        element.maps_whole(),
        element.zone() matches Some(range) ==> range.wf(),
        vaddr + element.map_size <= u64::MAX,
    ensures
        zone == zone_of(*element, vaddr as int, map),
        zone.wf(),
{
    let virt_zone = VirtRange::new(vaddr, element.size());
    match element.as_phys_zone() {
        Some(phys_zone) => {
            let flags = if map {
                element.flags
            } else {
                PageTableFlags { bits: PageTableFlags::NONE }
            };
            Pmit::new(phys_zone, virt_zone, flags)
        },
        None => Pmit::reserve(virt_zone),
    }
}

/// The ranges that deleted pieces were mapped at, each in front of the one before,
/// down from `vaddr`.
pub open spec fn zones_down_from(elements: Seq<VirtLayoutElement>, vaddr: int) -> Seq<Pmit>
    decreases elements.len(),
{
    if elements.len() == 0 {
        Seq::empty()
    } else {
        zones_down_from(elements.drop_last(), vaddr).push(
            zone_of(elements.last(), vaddr - layout::total(elements), false),
        )
    }
}

/// What is to be done for some ranges, one after the other.
pub open spec fn actions_of(zones: Seq<Pmit>) -> Seq<PageMappingAction>
    decreases zones.len(),
{
    if zones.len() == 0 {
        Seq::empty()
    } else {
        actions_of(zones.drop_last()) + zones.last().actions()
    }
}

/// Every piece that maps memory maps all of it, at a range that ends at an address.
pub open spec fn mappable(elements: Seq<VirtLayoutElement>) -> bool {
    forall|i: int|
        0 <= i < elements.len() ==> (#[trigger] elements[i]).maps_whole() && (
        elements[i].zone() matches Some(range) ==> range.wf())
}

/// A layout that can be handed to a mapper: nothing of it is mapped, its pieces are
/// made of whole pages, and each maps all of its memory or none.
pub open spec fn ready(layout: VirtLayout) -> bool {
    &&& layout.wf()
    &&& layout.fresh()
    &&& mappable(layout.data@)
    &&& forall|i: int| 0 <= i < layout.data@.len() ==> (#[trigger] layout.data@[i]).wf()
    &&& layout::total(layout.data@) <= u64::MAX
}

fn is_piece_ready(element: &VirtLayoutElement) -> (is_ready: bool)
    ensures
        is_ready == (element.wf() && element.maps_whole() && (element.zone() matches Some(range)
            ==> range.wf())),
{
    let is_whole = match element.phys_data {
        VirtLayoutElementType::Mem(mem) => mem.size <= u64::MAX - mem.addr && mem.addr % PAGE_SIZE
            == 0,
        VirtLayoutElementType::AllocedMem(mem) => mem.len <= u64::MAX - mem.phys && mem.phys
            % PAGE_SIZE == 0,
        VirtLayoutElementType::Empty(_) => true,
    };
    let maps_whole = match element.phys_data {
        VirtLayoutElementType::Empty(_) => true,
        _ => !element.flags.present() || element.phys_data.size() == element.map_size,
    };
    is_whole && maps_whole && element.map_size % PAGE_SIZE == 0 && element.phys_data.size()
        % PAGE_SIZE == 0 && element.flags.bits & PageTableFlags::ALL == element.flags.bits
        && !element.flags.contains(PageTableFlags::HUGE)
}

/// Whether a layout can be handed to a mapper.
pub fn is_ready(layout: &VirtLayout) -> (is_ready: bool)
    ensures
        is_ready == ready(*layout),
{
    if layout.dirty_index != 0 || layout.clean_size != 0 || layout.dealloc_que.len() != 0 {
        return false;
    }
    assert(layout.data@.take(0) =~= Seq::empty());
    let mut size: u64 = 0;
    let mut i: usize = 0;
    while i < layout.data.len()
        invariant
            0 <= i <= layout.data@.len(),
            size == layout::total(layout.data@.take(i as int)),
            forall|k: int|
                0 <= k < i ==> (#[trigger] layout.data@[k]).wf() && layout.data@[k].maps_whole()
                    && (layout.data@[k].zone() matches Some(range) ==> range.wf()),
        decreases layout.data@.len() - i,
    {
        let element = layout.data[i];
        proof {
            layout::lemma_take_one_more(layout.data@, i as int);
            layout::lemma_total_take(layout.data@, i + 1);
        }
        if !is_piece_ready(&element) || element.size() > u64::MAX - size {
            return false;
        }
        size = size + element.size();
        i = i + 1;
    }
    assert(layout.data@.take(i as int) =~= layout.data@);
    true
}

/// Walks over what is to be done for a layout, page by page.
#[derive(Debug)]
pub struct PageMappingIterator {
    /// Where the flags are not present, the range is unmapped.
    pub zones: Vec<Pmit>,
    pub pindex: usize,
}

impl PageMappingIterator {
    pub open spec fn wf(self) -> bool {
        &&& self.pindex <= self.zones@.len()
        &&& forall|i: int| 0 <= i < self.zones@.len() ==> (#[trigger] self.zones@[i]).wf()
    }

    /// What is still handed out: the pages of the current range and of those after it.
    pub open spec fn remaining(self) -> Seq<PageMappingAction> {
        actions_of(self.zones@.skip(self.pindex as int))
    }

    /// What has to be done so that the range holds the layout: deleted pieces are
    /// unmapped, then pieces that are not mapped yet are mapped.
    pub fn new(phys_zone: &VirtLayout, virt_zone: &VirtRange) -> (iter: Self)
        requires
            phys_zone.wf(),
            mappable(phys_zone.data@.skip(phys_zone.dirty_index as int)),
            mappable(phys_zone.dealloc_que@),
            virt_zone.addr + phys_zone.clean_size <= u64::MAX,
            virt_zone.addr + layout::total(phys_zone.data@) <= u64::MAX,
        ensures
            iter.wf(),
            iter.pindex == 0,
            iter.zones@ == zones_down_from(
                phys_zone.dealloc_que@,
                virt_zone.addr + phys_zone.clean_size,
            ) + zones_from(
                phys_zone.data@.skip(phys_zone.dirty_index as int),
                virt_zone.addr + layout::total(
                    phys_zone.data@.take(phys_zone.dirty_index as int),
                ),
                true,
            ),
    {
        let mut zones: Vec<Pmit> = Vec::new();
        let mut vaddr: u64 = virt_zone.addr() + phys_zone.old_clean_size();
        let ghost top: int = vaddr as int;
        let ghost que = phys_zone.dealloc_que@;
        let ghost dirty = phys_zone.data@.skip(phys_zone.dirty_index as int);
        let ghost clean = phys_zone.data@.take(phys_zone.dirty_index as int);
        let mut i: usize = 0;
        proof {
            assert(que.take(0) =~= Seq::empty());
            layout::lemma_total_nonneg(clean);
        }
        while i < phys_zone.dealloc_que.len()
            invariant
                0 <= i <= que.len(),
                que == phys_zone.dealloc_que@,
                mappable(que),
                vaddr == top - layout::total(que.take(i as int)),
                top == virt_zone.addr + layout::total(clean) + layout::total(que),
                layout::total(clean) >= 0,
                top <= u64::MAX,
                zones@ == zones_down_from(que.take(i as int), top),
                forall|k: int| 0 <= k < zones@.len() ==> (#[trigger] zones@[k]).wf(),
            decreases que.len() - i,
        {
            let a = phys_zone.dealloc_que[i];
            proof {
                layout::lemma_take_one_more(que, i as int);
                layout::lemma_total_take(que, i + 1);
                assert(que[i as int].maps_whole());
            }
            vaddr = vaddr - a.size();
            zones.push(zone_at(&a, vaddr, false));
            i = i + 1;
        }
        assert(que.take(i as int) =~= que);
        let ghost down = zones@;
        let dirty_slice = phys_zone.dirty_slice();
        let ghost start: int = vaddr as int;
        let mut j: usize = 0;
        proof {
            assert(dirty.take(0) =~= Seq::empty());
            assert(zones@ =~= down + zones_from(dirty.take(0), start, true));
            layout::lemma_total_take(phys_zone.data@, phys_zone.dirty_index as int);
            assert(mappable(dirty)) by {
                assert forall|k: int| 0 <= k < dirty.len() implies (#[trigger] dirty[k]).maps_whole()
                    && (dirty[k].zone() matches Some(range) ==> range.wf()) by {
                    assert(dirty[k] == phys_zone.data@[k + phys_zone.dirty_index]);
                }
            }
        }
        while j < dirty_slice.len()
            invariant
                0 <= j <= dirty.len(),
                dirty_slice@ == dirty,
                mappable(dirty),
                vaddr == start + layout::total(dirty.take(j as int)),
                start + layout::total(dirty) <= u64::MAX,
                zones@ == down + zones_from(dirty.take(j as int), start, true),
                forall|k: int| 0 <= k < zones@.len() ==> (#[trigger] zones@[k]).wf(),
            decreases dirty.len() - j,
        {
            let a = dirty_slice[j];
            proof {
                layout::lemma_take_one_more(dirty, j as int);
                layout::lemma_total_take(dirty, j + 1);
                assert(dirty[j as int].maps_whole());
            }
            zones.push(zone_at(&a, vaddr, true));
            vaddr = vaddr + a.size();
            j = j + 1;
            assert(zones@ =~= down + zones_from(dirty.take(j as int), start, true));
        }
        assert(dirty.take(j as int) =~= dirty);
        PageMappingIterator { zones, pindex: 0 }
    }

    /// What has to be done so that nothing of the layout is mapped at the range:
    /// the clean pieces are unmapped, then the deleted ones.
    pub fn new_unmapper(phys_zone: &VirtLayout, virt_zone: &VirtRange) -> (iter: Self)
        requires
            phys_zone.wf(),
            mappable(phys_zone.data@.take(phys_zone.dirty_index as int)),
            mappable(phys_zone.dealloc_que@),
            virt_zone.addr + phys_zone.clean_size <= u64::MAX,
        ensures
            iter.wf(),
            iter.pindex == 0,
            iter.zones@ == zones_from(
                phys_zone.data@.take(phys_zone.dirty_index as int)
                    + phys_zone.dealloc_que@.reverse(),
                virt_zone.addr as int,
                false,
            ),
    {
        let mut zones: Vec<Pmit> = Vec::new();
        let mut vaddr: u64 = virt_zone.addr();
        let ghost start: int = vaddr as int;
        let ghost clean = phys_zone.data@.take(phys_zone.dirty_index as int);
        let ghost que = phys_zone.dealloc_que@;
        let ghost all = clean + que.reverse();
        let clean_slice = phys_zone.clean_slice();
        proof {
            assert(all.take(0) =~= Seq::empty());
            layout::lemma_total_add(clean, que.reverse());
            lemma_total_reverse(que);
            assert forall|k: int| 0 <= k < all.len() implies (#[trigger] all[k]).maps_whole() && (
            all[k].zone() matches Some(range) ==> range.wf()) by {
                if k < clean.len() {
                    assert(all[k] == phys_zone.data@[k]);
                } else {
                    assert(all[k] == que[que.len() - 1 - (k - clean.len())]);
                }
            }
        }
        let mut i: usize = 0;
        while i < clean_slice.len()
            invariant
                0 <= i <= clean.len(),
                clean_slice@ == clean,
                all == clean + que.reverse(),
                mappable(all),
                vaddr == start + layout::total(all.take(i as int)),
                start + layout::total(all) <= u64::MAX,
                zones@ == zones_from(all.take(i as int), start, false),
                forall|k: int| 0 <= k < zones@.len() ==> (#[trigger] zones@[k]).wf(),
            decreases clean.len() - i,
        {
            let a = clean_slice[i];
            proof {
                assert(all[i as int] == a);
                layout::lemma_take_one_more(all, i as int);
                layout::lemma_total_take(all, i + 1);
                assert(all[i as int].maps_whole());
            }
            zones.push(zone_at(&a, vaddr, false));
            vaddr = vaddr + a.size();
            i = i + 1;
        }
        let mut j: usize = phys_zone.dealloc_que.len();
        while j > 0
            invariant
                0 <= j <= que.len(),
                que == phys_zone.dealloc_que@,
                all == clean + que.reverse(),
                mappable(all),
                vaddr == start + layout::total(all.take(clean.len() + que.len() - j)),
                start + layout::total(all) <= u64::MAX,
                zones@ == zones_from(all.take(clean.len() + que.len() - j), start, false),
                forall|k: int| 0 <= k < zones@.len() ==> (#[trigger] zones@[k]).wf(),
            decreases j,
        {
            j = j - 1;
            let a = phys_zone.dealloc_que[j];
            proof {
                let n = clean.len() + que.len() - j - 1;
                assert(all[n] == a);
                layout::lemma_take_one_more(all, n);
                layout::lemma_total_take(all, n + 1);
                assert(all[n].maps_whole());
            }
            zones.push(zone_at(&a, vaddr, false));
            vaddr = vaddr + a.size();
        }
        assert(all.take(clean.len() + que.len() - j) =~= all);
        PageMappingIterator { zones, pindex: 0 }
    }

    /// The next page. Once nothing can be taken off a range, the next range is taken up, so
    /// that what is to be mapped comes after what is to be unmapped first. A page that is
    /// only kept free has a frame that starts at zero.
    pub fn next(&mut self) -> (action: Option<PageMappingAction>)
        requires
            old(self).wf(),
        ensures
            final(self).wf(),
            old(self).remaining().len() == 0 ==> {
                &&& action is None
                &&& final(self).remaining() == old(self).remaining()
            },
            old(self).remaining().len() > 0 ==> {
                &&& action == Some(old(self).remaining()[0])
                &&& final(self).remaining() == old(self).remaining().skip(1)
            },
    {
        while self.pindex < self.zones.len()
            invariant
                self.wf(),
                self.zones@ == old(self).zones@,
                self.remaining() == old(self).remaining(),
            decreases self.zones@.len() - self.pindex,
        {
            let index = self.pindex;
            let mut pmit = self.zones[index];
            let ghost before = pmit;
            let ghost rest = self.zones@.skip(index + 1);
            proof {
                assert(self.zones@.skip(index as int) =~= seq![before] + rest);
                lemma_actions_of_first(before, rest);
            }
            match pmit.get_take_size() {
                Some(size) => {
                    proof {
                        addr::lemma_can_take(before.virt_zone.addr, before.virt_zone.size, size);
                        assert(before.actions() == seq![before.action(size)] + before.after(
                            size,
                        ).actions());
                        lemma_actions_of_first(before.after(size), rest);
                    }
                    let (pframe, vframe) = pmit.take(size).unwrap();
                    self.zones[index] = pmit;
                    proof {
                        assert(self.zones@.skip(index as int) =~= seq![before.after(size)] + rest);
                        assert(self.remaining() =~= old(self).remaining().skip(1));
                    }
                    if pmit.reserved {
                        return Some(PageMappingAction::ReserveFrame(VirtFrame::new(0, size)));
                    }
                    let flags = pmit.flags;
                    if flags.present() {
                        return Some(PageMappingAction::MapFrame(pframe, vframe, flags));
                    } else {
                        return Some(PageMappingAction::UnmapFrame(vframe));
                    }
                },
                None => {
                    self.pindex = index + 1;
                    assert(self.remaining() =~= old(self).remaining());
                },
            }
        }
        assert(self.zones@.skip(self.pindex as int) =~= Seq::empty());
        None
    }
}

/// What is to be done for some ranges starts with what is to be done for the first.
pub proof fn lemma_actions_of_first(first: Pmit, rest: Seq<Pmit>)
    ensures
        actions_of(seq![first] + rest) == first.actions() + actions_of(rest),
    decreases rest.len(),
{
    let all = seq![first] + rest;
    if rest.len() == 0 {
        assert(all.drop_last() =~= Seq::empty());
        assert(all.last() == first);
        assert(actions_of(all.drop_last()) =~= Seq::empty());
        assert(actions_of(all) =~= first.actions());
        assert(first.actions() + actions_of(rest) =~= first.actions());
    } else {
        lemma_actions_of_first(first, rest.drop_last());
        assert(all.drop_last() =~= seq![first] + rest.drop_last());
        assert(all.last() == rest.last());
        assert(actions_of(all) =~= first.actions() + actions_of(rest));
    }
}

/// Pieces take as much of the address space in whatever direction they lie.
pub proof fn lemma_total_reverse(a: Seq<VirtLayoutElement>)
    ensures
        layout::total(a.reverse()) == layout::total(a),
    decreases a.len(),
{
    if a.len() == 0 {
        assert(a.reverse() =~= a);
    } else {
        let rest = a.drop_last();
        lemma_total_reverse(rest);
        assert(a.reverse() =~= seq![a.last()] + rest.reverse());
        layout::lemma_total_add(seq![a.last()], rest.reverse());
        assert(seq![a.last()].drop_last() =~= Seq::empty());
        assert(layout::total(seq![a.last()]) == a.last().map_size) by {
            reveal_with_fuel(layout::total, 2);
        }
    }
}

/// How many tables a walk to a page of this size passes.
pub open spec fn depth_of(page: PageSize) -> int {
    match page {
        PageSize::K4 => 4,
        PageSize::M2 => 3,
        PageSize::G1 => 2,
    }
}

/// The path to the entry of a page.
pub open spec fn frame_path(frame: VirtFrame) -> Seq<int> {
    walk::path_of(frame.start(), depth_of(frame.page()))
}

/// The pages of a range of whole pages.
pub proof fn lemma_actions(pmit: Pmit)
    requires
        pmit.wf(),
    ensures
        forall|k: int|
            0 <= k < pmit.actions().len() ==> pmit.has_action(#[trigger] pmit.actions()[k]),
        !pmit.reserved ==> forall|k: int, l: int|
            0 <= k < l < pmit.actions().len() ==> (#[trigger] pmit.actions()[k]).frame().end()
                <= (#[trigger] pmit.actions()[l]).frame().start(),
    decreases pmit.virt_zone.size,
{
    match pmit.spec_take_size() {
        Some(page) => {
            addr::lemma_can_take(pmit.virt_zone.addr, pmit.virt_zone.size, page);
            addr::lemma_can_take(pmit.phys_zone.addr, pmit.phys_zone.size, page);
            let first = pmit.action(page);
            let rest = pmit.after(page);
            lemma_actions(rest);
            let acts = pmit.actions();
            assert(acts == seq![first] + rest.actions());
            assert(pmit.has_action(first));
            assert forall|k: int| 0 <= k < acts.len() implies pmit.has_action(
                #[trigger] acts[k],
            ) by {
                if k > 0 {
                    assert(acts[k] == rest.actions()[k - 1]);
                    assert(rest.has_action(acts[k]));
                }
            }
            assert forall|k: int, l: int| !pmit.reserved && 0 <= k < l < acts.len() implies (
            #[trigger] acts[k]).frame().end() <= (#[trigger] acts[l]).frame().start() by {
                assert(acts[l] == rest.actions()[l - 1]);
                assert(rest.has_action(rest.actions()[l - 1]));
                if k > 0 {
                    assert(acts[k] == rest.actions()[k - 1]);
                }
            }
        },
        None => {},
    }
}

/// Every address of a range of whole pages lies in one of the pages.
pub proof fn lemma_actions_cover(pmit: Pmit, a: u64) -> (k: int)
    requires
        pmit.wf(),
        !pmit.reserved,
        pmit.virt_zone.addr % PAGE_SIZE == 0,
        pmit.phys_zone.addr % PAGE_SIZE == 0,
        pmit.virt_zone.size % PAGE_SIZE == 0,
        pmit.virt_zone.holds(a),
    ensures
        0 <= k < pmit.actions().len(),
        pmit.actions()[k].frame().start() <= a < pmit.actions()[k].frame().end(),
    decreases pmit.virt_zone.size,
{
    let page = pmit.spec_take_size()->0;
    assert(pmit.spec_take_size() is Some);
    addr::lemma_can_take(pmit.virt_zone.addr, pmit.virt_zone.size, page);
    addr::lemma_can_take(pmit.phys_zone.addr, pmit.phys_zone.size, page);
    let rest = pmit.after(page);
    let acts = pmit.actions();
    assert(acts == seq![pmit.action(page)] + rest.actions());
    if a < pmit.virt_zone.addr + page.bytes() {
        0
    } else {
        lemma_whole_behind_page(pmit.virt_zone.addr as int, page);
        lemma_whole_behind_page(pmit.phys_zone.addr as int, page);
        lemma_whole_behind_page(pmit.virt_zone.size - page.bytes(), page);
        let k = lemma_actions_cover(rest, a);
        assert(acts[k + 1] == rest.actions()[k]);
        k + 1
    }
}

/// A page of any size takes whole pages of the smallest size.
proof fn lemma_whole_behind_page(n: int, page: PageSize)
    ensures
        (n + page.bytes()) % (PAGE_SIZE as int) == n % (PAGE_SIZE as int),
{
    match page {
        PageSize::K4 => {
            assert((n + 0x1000) % 4096 == n % 4096);
        },
        PageSize::M2 => {
            assert((n + 0x20_0000) % 4096 == n % 4096);
        },
        PageSize::G1 => {
            assert((n + 0x4000_0000) % 4096 == n % 4096);
        },
    }
}

/// Whether a range is mapped or unmapped, its pages are the same.
pub proof fn lemma_actions_same_frames(a: Pmit, b: Pmit)
    requires
        a.wf(),
        a.phys_zone == b.phys_zone,
        a.virt_zone == b.virt_zone,
        a.reserved == b.reserved,
    ensures
        a.actions().len() == b.actions().len(),
        forall|k: int|
            0 <= k < a.actions().len() ==> (#[trigger] a.actions()[k]).frame()
                == b.actions()[k].frame(),
    decreases a.virt_zone.size,
{
    match a.spec_take_size() {
        Some(page) => {
            addr::lemma_can_take(a.virt_zone.addr, a.virt_zone.size, page);
            lemma_actions_same_frames(a.after(page), b.after(page));
            assert(a.actions() == seq![a.action(page)] + a.after(page).actions());
            assert(b.actions() == seq![b.action(page)] + b.after(page).actions());
            assert forall|k: int| 0 <= k < a.actions().len() implies (
            #[trigger] a.actions()[k]).frame() == b.actions()[k].frame() by {
                if k > 0 {
                    assert(a.actions()[k] == a.after(page).actions()[k - 1]);
                    assert(b.actions()[k] == b.after(page).actions()[k - 1]);
                }
            }
        },
        None => {},
    }
}

/// Whether an action is about a page of a range of addresses: the page lies there at a
/// multiple of its size, or is only kept free.
pub open spec fn lies_in(action: PageMappingAction, start: int, end: int) -> bool {
    let frame = action.frame();
    if action is ReserveFrame {
        frame.start() == 0
    } else {
        &&& frame.start() % frame.page().bytes() == 0
        &&& start <= frame.start()
        &&& frame.end() <= end
    }
}

/// The ranges of some pieces lie one after the other in the range of the whole.
pub proof fn lemma_zones_from(elements: Seq<VirtLayoutElement>, vaddr: int, map: bool)
    requires
        mappable(elements),
        0 <= vaddr,
        vaddr + layout::total(elements) <= u64::MAX,
    ensures
        zones_from(elements, vaddr, map).len() == elements.len(),
        forall|i: int|
            0 <= i < elements.len() ==> {
                let z = #[trigger] zones_from(elements, vaddr, map)[i];
                &&& z == zone_of(elements[i], vaddr + layout::total(elements.take(i)), map)
                &&& z.wf()
                &&& z.virt_zone.addr == vaddr + layout::total(elements.take(i))
                &&& vaddr <= z.virt_zone.addr
                &&& z.virt_zone.end() <= vaddr + layout::total(elements)
            },
    decreases elements.len(),
{
    if elements.len() > 0 {
        let rest = elements.drop_last();
        let n = rest.len() as int;
        assert(mappable(rest)) by {
            assert forall|k: int| 0 <= k < rest.len() implies (#[trigger] rest[k]).maps_whole() && (
            rest[k].zone() matches Some(range) ==> range.wf()) by {
                assert(rest[k] == elements[k]);
            }
        }
        layout::lemma_total_nonneg(rest);
        lemma_zones_from(rest, vaddr, map);
        assert(elements[n].maps_whole());
        let zones = zones_from(elements, vaddr, map);
        let before = zones_from(rest, vaddr, map);
        assert forall|i: int| 0 <= i < elements.len() implies {
            let z = #[trigger] zones[i];
            &&& z == zone_of(elements[i], vaddr + layout::total(elements.take(i)), map)
            &&& z.wf()
            &&& z.virt_zone.addr == vaddr + layout::total(elements.take(i))
            &&& vaddr <= z.virt_zone.addr
            &&& z.virt_zone.end() <= vaddr + layout::total(elements)
        } by {
            if i < n {
                assert(zones[i] == before[i]);
                assert(rest.take(i) =~= elements.take(i));
                assert(rest[i] == elements[i]);
            } else {
                assert(elements.take(i) =~= rest);
            }
        }
    }
}

/// What is to be done for some pieces is about pages that lie one after the other.
pub proof fn lemma_layout_actions(elements: Seq<VirtLayoutElement>, vaddr: int, map: bool)
    requires
        mappable(elements),
        0 <= vaddr,
        vaddr + layout::total(elements) <= u64::MAX,
    ensures
        ({
            let acts = actions_of(zones_from(elements, vaddr, map));
            &&& forall|k: int|
                0 <= k < acts.len() ==> {
                    &&& lies_in(#[trigger] acts[k], vaddr, vaddr + layout::total(elements))
                    &&& acts[k] is ReserveFrame || if map {
                        acts[k] is MapFrame
                    } else {
                        acts[k] is UnmapFrame
                    }
                }
            &&& forall|k: int, l: int|
                0 <= k < l < acts.len() && !((#[trigger] acts[k]) is ReserveFrame) && !((
                #[trigger] acts[l]) is ReserveFrame) ==> acts[k].frame().end()
                    <= acts[l].frame().start()
        }),
    decreases elements.len(),
{
    if elements.len() > 0 {
        let rest = elements.drop_last();
        let n = rest.len() as int;
        assert(mappable(rest)) by {
            assert forall|k: int| 0 <= k < rest.len() implies (#[trigger] rest[k]).maps_whole() && (
            rest[k].zone() matches Some(range) ==> range.wf()) by {
                assert(rest[k] == elements[k]);
            }
        }
        layout::lemma_total_nonneg(rest);
        lemma_zones_from(elements, vaddr, map);
        lemma_layout_actions(rest, vaddr, map);
        let zones = zones_from(elements, vaddr, map);
        let z = zones[n];
        assert(elements.take(n) =~= rest);
        assert(zones.drop_last() =~= zones_from(rest, vaddr, map));
        let front = actions_of(zones_from(rest, vaddr, map));
        let back = z.actions();
        let acts = actions_of(zones);
        assert(acts == front + back);
        lemma_actions(z);
        lemma_none_not_present();
        assert forall|k: int| 0 <= k < acts.len() implies {
            &&& lies_in(#[trigger] acts[k], vaddr, vaddr + layout::total(elements))
            &&& acts[k] is ReserveFrame || if map {
                acts[k] is MapFrame
            } else {
                acts[k] is UnmapFrame
            }
        } by {
            if k < front.len() {
                assert(acts[k] == front[k]);
            } else {
                assert(acts[k] == back[k - front.len()]);
                assert(z.has_action(back[k - front.len()]));
            }
        }
        assert forall|k: int, l: int|
            0 <= k < l < acts.len() && !((#[trigger] acts[k]) is ReserveFrame) && !((
            #[trigger] acts[l]) is ReserveFrame) implies acts[k].frame().end()
            <= acts[l].frame().start() by {
            let m = front.len() as int;
            if l < m {
                assert(acts[k] == front[k] && acts[l] == front[l]);
            } else {
                assert(acts[l] == back[l - m]);
                assert(z.has_action(back[l - m]));
                if k < m {
                    assert(acts[k] == front[k]);
                } else {
                    assert(acts[k] == back[k - m]);
                }
            }
        }
    }
}

/// Whether some pieces are mapped or unmapped, their pages are the same.
pub proof fn lemma_same_pages(elements: Seq<VirtLayoutElement>, vaddr: int)
    requires
        mappable(elements),
        0 <= vaddr,
        vaddr + layout::total(elements) <= u64::MAX,
    ensures
        ({
            let maps = actions_of(zones_from(elements, vaddr, true));
            let unmaps = actions_of(zones_from(elements, vaddr, false));
            &&& maps.len() == unmaps.len()
            &&& forall|k: int|
                0 <= k < maps.len() ==> {
                    &&& (#[trigger] unmaps[k]).frame() == maps[k].frame()
                    &&& unmaps[k] is ReserveFrame <==> maps[k] is ReserveFrame
                }
        }),
    decreases elements.len(),
{
    if elements.len() > 0 {
        let rest = elements.drop_last();
        let n = rest.len() as int;
        assert(mappable(rest)) by {
            assert forall|k: int| 0 <= k < rest.len() implies (#[trigger] rest[k]).maps_whole() && (
            rest[k].zone() matches Some(range) ==> range.wf()) by {
                assert(rest[k] == elements[k]);
            }
        }
        layout::lemma_total_nonneg(rest);
        lemma_same_pages(rest, vaddr);
        lemma_zones_from(elements, vaddr, true);
        lemma_zones_from(elements, vaddr, false);
        let a = zones_from(elements, vaddr, true);
        let b = zones_from(elements, vaddr, false);
        assert(a.drop_last() =~= zones_from(rest, vaddr, true));
        assert(b.drop_last() =~= zones_from(rest, vaddr, false));
        lemma_actions_same_frames(a[n], b[n]);
        lemma_actions(a[n]);
        lemma_actions(b[n]);
        let maps = actions_of(a);
        let unmaps = actions_of(b);
        let m = actions_of(zones_from(rest, vaddr, true)).len() as int;
        assert forall|k: int| 0 <= k < maps.len() implies {
            &&& (#[trigger] unmaps[k]).frame() == maps[k].frame()
            &&& unmaps[k] is ReserveFrame <==> maps[k] is ReserveFrame
        } by {
            if k < m {
                assert(maps[k] == actions_of(zones_from(rest, vaddr, true))[k]);
                assert(unmaps[k] == actions_of(zones_from(rest, vaddr, false))[k]);
            } else {
                assert(maps[k] == a[n].actions()[k - m]);
                assert(unmaps[k] == b[n].actions()[k - m]);
                assert(a[n].has_action(a[n].actions()[k - m]));
                assert(b[n].has_action(b[n].actions()[k - m]));
            }
        }
    }
}

/// What is to be done for a range is done among what is to be done for all.
pub proof fn lemma_action_of(zones: Seq<Pmit>, i: int, j: int) -> (k: int)
    requires
        0 <= i < zones.len(),
        0 <= j < zones[i].actions().len(),
    ensures
        0 <= k < actions_of(zones).len(),
        actions_of(zones)[k] == zones[i].actions()[j],
    decreases zones.len(),
{
    let front = actions_of(zones.drop_last());
    if i == zones.len() - 1 {
        assert(actions_of(zones)[front.len() + j] == zones[i].actions()[j]);
        front.len() + j
    } else {
        assert(zones.drop_last()[i] == zones[i]);
        let k = lemma_action_of(zones.drop_last(), i, j);
        assert(actions_of(zones)[k] == front[k]);
        k
    }
}

/// Whatever is done for some ranges is done for one of them.
pub proof fn lemma_action_from(zones: Seq<Pmit>, k: int) -> (i: int)
    requires
        0 <= k < actions_of(zones).len(),
        forall|i: int| 0 <= i < zones.len() ==> (#[trigger] zones[i]).wf(),
    ensures
        0 <= i < zones.len(),
        zones[i].has_action(actions_of(zones)[k]),
    decreases zones.len(),
{
    let rest = zones.drop_last();
    let front = actions_of(rest);
    if k < front.len() {
        assert forall|i: int| 0 <= i < rest.len() implies (#[trigger] rest[i]).wf() by {
            assert(rest[i] == zones[i]);
        }
        assert(actions_of(zones)[k] == front[k]);
        let i = lemma_action_from(rest, k);
        assert(rest[i] == zones[i]);
        i
    } else {
        let n = zones.len() - 1;
        lemma_actions(zones[n]);
        assert(actions_of(zones)[k] == zones[n].actions()[k - front.len()]);
        n
    }
}

proof fn lemma_none_not_present()
    ensures
        !(PageTableFlags { bits: 0 }).spec_present(),
{
    assert(0u64 & 1 != 1) by (bit_vector);
}

/// Addresses that share their first steps lie in the same page of that depth.
pub proof fn lemma_shared_steps(a: u64, b: u64, depth: int)
    requires
        2 <= depth <= 4,
        a as int / 0x1_0000_0000_0000 == b as int / 0x1_0000_0000_0000,
        forall|k: int| 0 <= k < depth ==> #[trigger] walk::index_of(a, k) == walk::index_of(b, k),
    ensures
        depth == 2 ==> a as int / 0x4000_0000 == b as int / 0x4000_0000,
        depth == 3 ==> a as int / 0x20_0000 == b as int / 0x20_0000,
        depth == 4 ==> a as int / 0x1000 == b as int / 0x1000,
{
    let x = a as int;
    let y = b as int;
    lemma_step(x, y, 0x80_0000_0000, 0x1_0000_0000_0000, walk::index_of(a, 0), walk::index_of(b, 0));
    lemma_step(x, y, 0x4000_0000, 0x80_0000_0000, walk::index_of(a, 1), walk::index_of(b, 1));
    if depth >= 3 {
        lemma_step(x, y, 0x20_0000, 0x4000_0000, walk::index_of(a, 2), walk::index_of(b, 2));
    }
    if depth >= 4 {
        lemma_step(x, y, 0x1000, 0x20_0000, walk::index_of(a, 3), walk::index_of(b, 3));
    }
}

proof fn lemma_step(x: int, y: int, small: int, large: int, i: int, j: int)
    requires
        x >= 0,
        y >= 0,
        small > 0,
        large == small * 512,
        x / large == y / large,
        i == (x / small) % 512,
        j == (y / small) % 512,
        i == j,
    ensures
        x / small == y / small,
{
    vstd::arithmetic::div_mod::lemma_div_denominator(x, small, 512);
    vstd::arithmetic::div_mod::lemma_div_denominator(y, small, 512);
    vstd::arithmetic::div_mod::lemma_fundamental_div_mod(x / small, 512);
    vstd::arithmetic::div_mod::lemma_fundamental_div_mod(y / small, 512);
}

/// The walks to pages that do not overlap end at unrelated entries.
pub proof fn lemma_frames_unrelated(a: VirtFrame, b: VirtFrame)
    requires
        a.start() % a.page().bytes() == 0,
        b.start() % b.page().bytes() == 0,
        a.end() <= b.start(),
        a.start() as int / 0x1_0000_0000_0000 == b.start() as int / 0x1_0000_0000_0000,
    ensures
        walk::unrelated(frame_path(a), frame_path(b)),
        walk::unrelated(frame_path(b), frame_path(a)),
{
    let p = frame_path(a);
    let q = frame_path(b);
    if walk::is_prefix(p, q) {
        assert forall|k: int| 0 <= k < p.len() implies #[trigger] walk::index_of(a.start(), k)
            == walk::index_of(b.start(), k) by {
            assert(q.take(p.len() as int)[k] == p[k]);
            assert(q[k] == walk::index_of(b.start(), k));
        }
        lemma_shared_steps(a.start(), b.start(), p.len() as int);
    }
    if walk::is_prefix(q, p) {
        assert forall|k: int| 0 <= k < q.len() implies #[trigger] walk::index_of(a.start(), k)
            == walk::index_of(b.start(), k) by {
            assert(p.take(q.len() as int)[k] == q[k]);
            assert(p[k] == walk::index_of(a.start(), k));
        }
        lemma_shared_steps(a.start(), b.start(), q.len() as int);
    }
}

/// Whether the processor takes a number for an address.
pub open spec fn is_address(a: u64) -> bool {
    a < 0x8000_0000_0000 || a >= 0xffff_8000_0000_0000
}

/// A walk tells the page that an address lies in from all other pages of its size.
pub proof fn lemma_frame_of_path(frame: VirtFrame, a: u64)
    requires
        frame.start() % frame.page().bytes() == 0,
        is_address(frame.start()),
        is_address(a),
        walk::path_of(a, depth_of(frame.page())) == frame_path(frame),
    ensures
        frame.start() <= a < frame.end(),
{
    let s = frame.start();
    let depth = depth_of(frame.page());
    assert forall|k: int| 0 <= k < depth implies #[trigger] walk::index_of(a, k) == walk::index_of(
        s,
        k,
    ) by {
        assert(walk::path_of(a, depth)[k] == frame_path(frame)[k]);
    }
    assert(walk::index_of(a, 0) == walk::index_of(s, 0));
    assert(a as int / 0x1_0000_0000_0000 == s as int / 0x1_0000_0000_0000);
    lemma_shared_steps(a, s, depth);
}

} // verus!
