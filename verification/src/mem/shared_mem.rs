//! Memory that several processes map, and the shared memory that a process knows.
use vstd::prelude::*;
use std::collections::BTreeMap;
use std::sync::Arc;
use crate::mem::addr::{Allocation, VirtRange};
use crate::mem::flags::{PageMappingFlags, PageTableFlags, SMemFlags};
use crate::mem::layout;
use crate::mem::layout::{AllocType, VirtLayout, VirtLayoutElement, VirtLayoutElementType};
use crate::mem::page_table::map_get_mut;
use crate::sched::futex::FutexMap;

verus! {

broadcast use vstd::std_specs::btree::group_btree_axioms;

/// Memory that processes can share.
#[derive(Debug)]
pub struct SharedMem {
    mem: Allocation,
    flags: SMemFlags,
    /// No process refers to the memory by this id; the scheduler tells by it on which
    /// shared futexes threads wait.
    id: usize,
    futex: FutexMap,
}

/// The id of the `n`th piece of shared memory from now on, where the next id is
/// `next_smid`.
pub open spec fn smid_after(next_smid: usize, n: nat) -> int {
    (next_smid + n) % (usize::MAX + 1)
}

/// Pieces of shared memory have different ids, as long as the ids do not start over.
pub proof fn lemma_smids_differ(next_smid: usize, m: nat, n: nat)
    requires
        m < n <= m + usize::MAX,
    ensures
        smid_after(next_smid, m) != smid_after(next_smid, n),
{
    let size = usize::MAX + 1;
    if smid_after(next_smid, m) == smid_after(next_smid, n) {
        vstd::arithmetic::div_mod::lemma_mod_equivalence(
            (next_smid + n) as int,
            (next_smid + m) as int,
            size,
        );
        vstd::arithmetic::div_mod::lemma_small_mod((n - m) as nat, size as nat);
    }
}

impl SharedMem {
    pub closed spec fn spec_mem(self) -> Allocation {
        self.mem
    }

    pub closed spec fn spec_flags(self) -> SMemFlags {
        self.flags
    }

    pub closed spec fn spec_id(self) -> usize {
        self.id
    }

    pub closed spec fn spec_futex(self) -> FutexMap {
        self.futex
    }

    /// The one piece that maps this memory.
    pub open spec fn element(self) -> VirtLayoutElement {
        VirtLayoutElement {
            phys_data: VirtLayoutElementType::Mem(self.spec_mem().phys_range()),
            map_size: self.spec_mem().len,
            flags: PageTableFlags {
                bits: PageTableFlags::mapping_bits(
                    PageMappingFlags::spec_from_shared_flags(self.spec_flags()),
                ),
            },
        }
    }

    /// Shared memory under the next id. `mem` is what the zone manager answered to the
    /// request for memory; where there is none, no id is taken.
    pub fn new(mem: Option<Allocation>, flags: SMemFlags, next_smid: &mut usize) -> (smem: Option<
        Arc<Self>,
    >)
        ensures
            smem is Some <==> mem is Some,
            smem matches Some(s) ==> {
                &&& s.spec_mem() == mem->0
                &&& s.spec_flags() == flags
                &&& s.spec_id() == *old(next_smid)
                &&& s.spec_futex() == FutexMap::spec_new_smem(*old(next_smid))
                &&& *final(next_smid) == smid_after(*old(next_smid), 1)
            },
            smem is None ==> *final(next_smid) == *old(next_smid),
    {
        let mem = match mem {
            Some(mem) => mem,
            None => {
                return None;
            },
        };
        let id: usize = *next_smid;
        *next_smid = id.wrapping_add(1);
        proof {
            if id < usize::MAX {
                vstd::arithmetic::div_mod::lemma_small_mod(
                    (id + 1) as nat,
                    (usize::MAX + 1) as nat,
                );
            } else {
                vstd::arithmetic::div_mod::lemma_mod_self_0(usize::MAX + 1);
            }
        }
        Some(Arc::new(SharedMem { mem, flags, id, futex: FutexMap::new_smem(id) }))
    }

    pub fn id(&self) -> (id: usize)
        ensures
            id == self.spec_id(),
    {
        self.id
    }

    pub fn futex(&self) -> (futex: &FutexMap)
        ensures
            *futex == self.spec_futex(),
    {
        &self.futex
    }

    pub fn alloc_type(&self) -> (alloc_type: AllocType)
        ensures
            alloc_type == AllocType::Shared(self.spec_id()),
    {
        AllocType::Shared(self.id)
    }

    /// A layout that maps the memory and does not own it.
    pub fn virt_layout(&self) -> (layout: VirtLayout)
        ensures
            layout.data@ == seq![self.element()],
            layout.alloc_type == AllocType::Shared(self.spec_id()),
            layout.wf(),
            layout.fresh(),
            layout::total(layout.data@) == self.spec_mem().len,
            layout::owned_by(layout.data@) == Seq::<Allocation>::empty(),
    {
        let elem = VirtLayoutElement::from_range(
            self.mem.as_phys_zone(),
            PageMappingFlags::from_shared_flags(self.flags),
        );
        let layout = VirtLayout::from_typed(vec![elem], self.alloc_type());
        proof {
            assert(layout.data@ =~= seq![self.element()]);
            assert(layout.data@.drop_last() =~= Seq::empty());
            reveal_with_fuel(layout::total, 2);
            reveal_with_fuel(layout::owned_by, 2);
        }
        layout
    }
}

/// Shared memory that a process knows, and where the process has mapped it.
#[derive(Debug)]
pub struct SMemMapEntry {
    smem: Arc<SharedMem>,
    pub virt_mem: Option<VirtRange>,
}

impl SMemMapEntry {
    pub closed spec fn spec_smem(self) -> Arc<SharedMem> {
        self.smem
    }

    /// Where the process has mapped the memory.
    pub closed spec fn spec_virt_mem(self) -> Option<VirtRange> {
        self.virt_mem
    }

    pub fn smem(&self) -> (smem: &Arc<SharedMem>)
        ensures
            *smem == self.spec_smem(),
    {
        &self.smem
    }

    /// Where the process has mapped the memory.
    pub fn virt_mem(&self) -> (virt_mem: Option<VirtRange>)
        ensures
            virt_mem == self.spec_virt_mem(),
    {
        self.virt_mem
    }

    /// Notes where the process has mapped the memory, or that it has not.
    pub fn set_virt_mem(&mut self, virt_mem: Option<VirtRange>)
        ensures
            final(self).spec_smem() == old(self).spec_smem(),
            final(self).spec_virt_mem() == virt_mem,
    {
        self.virt_mem = virt_mem;
    }

    pub fn into_smem(self) -> (smem: Arc<SharedMem>)
        ensures
            smem == self.spec_smem(),
    {
        self.smem
    }
}

/// The shared memory that a process knows, by the ids that the process uses.
#[derive(Debug)]
pub struct SMemMap {
    data: BTreeMap<usize, SMemMapEntry>,
    next_id: usize,
}

impl View for SMemMap {
    type V = Map<usize, SMemMapEntry>;

    closed spec fn view(&self) -> Map<usize, SMemMapEntry> {
        self.data@
    }
}

impl SMemMap {
    /// The id that the next shared memory gets.
    pub closed spec fn spec_next_id(&self) -> usize {
        self.next_id
    }

    /// Every id that is in use was handed out before.
    pub open spec fn wf(&self) -> bool {
        forall|id: usize| #[trigger] self@.contains_key(id) ==> id < self.spec_next_id()
    }

    pub fn new() -> (map: Self)
        ensures
            map.wf(),
            map@ == Map::<usize, SMemMapEntry>::empty(),
            map.spec_next_id() == 0,
    {
        SMemMap { data: BTreeMap::new(), next_id: 0 }
    }

    /// Whether there is no id left.
    pub fn is_full(&self) -> (full: bool)
        ensures
            full == (self.spec_next_id() == usize::MAX),
    {
        self.next_id == usize::MAX
    }

    /// Adds shared memory that is not mapped, under an id that was never used before.
    pub fn insert(&mut self, smem: Arc<SharedMem>) -> (id: usize)
        requires
            old(self).wf(),
            old(self).spec_next_id() < usize::MAX,
        ensures
            final(self).wf(),
            id == old(self).spec_next_id(),
            !old(self)@.contains_key(id),
            final(self).spec_next_id() == old(self).spec_next_id() + 1,
            final(self)@.contains_key(id),
            final(self)@[id].spec_smem() == smem,
            final(self)@[id].spec_virt_mem() is None,
            final(self)@ == old(self)@.insert(id, final(self)@[id]),
    {
        let id: usize = self.next_id;
        self.next_id = self.next_id + 1;
        let entry = SMemMapEntry { smem, virt_mem: None };
        self.data.insert(id, entry);
        assert forall|other: usize| #[trigger] self@.contains_key(other) implies other
            < self.spec_next_id() by {
            assert(other == id || old(self)@.contains_key(other));
        }
        id
    }

    pub fn get(&self, id: usize) -> (entry: Option<&SMemMapEntry>)
        ensures
            entry == if self@.contains_key(id) {
                Some(&self@[id])
            } else {
                None::<&SMemMapEntry>
            },
    {
        self.data.get(&id)
    }

    /// The entry of an id, to change where it is mapped.
    pub fn get_mut(&mut self, id: usize) -> (entry: Option<&mut SMemMapEntry>)
        ensures
            final(self).spec_next_id() == old(self).spec_next_id(),
            final(self)@.dom() == old(self)@.dom(),
            match entry {
                Some(e) => {
                    &&& old(self)@.contains_key(id)
                    &&& *e == old(self)@[id]
                    &&& final(self)@ == old(self)@.insert(id, *final(e))
                },
                None => !old(self)@.contains_key(id) && final(self)@ == old(self)@,
            },
    {
        map_get_mut(&mut self.data, &id)
    }

    /// Forgets the shared memory of an id. The id is not used again.
    pub fn remove(&mut self, id: usize) -> (entry: Option<SMemMapEntry>)
        ensures
            old(self).wf() ==> final(self).wf(),
            final(self).spec_next_id() == old(self).spec_next_id(),
            final(self)@ == old(self)@.remove(id),
            entry == if old(self)@.contains_key(id) {
                Some(old(self)@[id])
            } else {
                None::<SMemMapEntry>
            },
    {
        let entry = self.data.remove(&id);
        assert(old(self).wf() ==> self.wf()) by {
            assert forall|other: usize| old(self).wf() && #[trigger] self@.contains_key(
                other,
            ) implies other < self.spec_next_id() by {
                assert(old(self)@.contains_key(other));
            }
        }
        entry
    }
}

} // verus!
