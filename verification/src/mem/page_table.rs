//! Page tables and the memory that holds them.
use vstd::prelude::*;
use vstd::arithmetic::power2;
use std::collections::BTreeMap;
use crate::mem::addr::{get_bits, Allocation, PAGE_SIZE};
use crate::mem::flags;
use crate::mem::flags::PageTableFlags;

verus! {

broadcast use vstd::std_specs::btree::group_btree_axioms;

/// The bits of an entry that hold the address of a frame.
pub const PAGE_ADDR_BITMASK: u64 = 0x000f_ffff_ffff_f000;

/// The bits of a table's first entry that do not hold the table's count.
pub const NO_COUNT_BITMASK: u64 = 0x800f_ffff_ffff_ffff;

/// How many counts a table can tell apart.
pub const COUNT_LIMIT: u64 = 2048;

/// The number of entries of a table.
pub const ENTRIES: usize = 512;

/// Whether an entry is in use.
pub open spec fn entry_present(entry: u64) -> bool {
    entry & PageTableFlags::PRESENT != 0
}

/// Whether an entry above the lowest level stands for a page, not for a table.
pub open spec fn entry_huge(entry: u64) -> bool {
    flags::has_all(entry, PageTableFlags::HUGE)
}

/// The address that an entry holds.
pub open spec fn entry_addr(entry: u64) -> u64 {
    entry & PAGE_ADDR_BITMASK
}

/// An entry as the processor reads it, without the count.
pub open spec fn strip(entry: u64) -> u64 {
    entry & NO_COUNT_BITMASK
}

/// The count that the bits of an entry hold.
pub open spec fn count_of(entry: u64) -> nat {
    (entry as nat / 0x10_0000_0000_0000) % 2048
}

/// An entry with its count replaced.
pub open spec fn with_count(entry: u64, n: u64) -> u64 {
    (entry & NO_COUNT_BITMASK) | ((n % COUNT_LIMIT) << 52)
}

proof fn lemma_strip_bits(e: u64)
    by (bit_vector)
    ensures
        (e & 0x800f_ffff_ffff_ffff) & 1 == e & 1,
        (e & 0x800f_ffff_ffff_ffff) & (1u64 << 7) == e & (1u64 << 7),
        (e & 0x800f_ffff_ffff_ffff) & 0x000f_ffff_ffff_f000 == e & 0x000f_ffff_ffff_f000,
        (e & 0x800f_ffff_ffff_ffff) & 0x800f_ffff_ffff_ffff == e & 0x800f_ffff_ffff_ffff,
        (e & 0x000f_ffff_ffff_f000) & 0x000f_ffff_ffff_f000 == e & 0x000f_ffff_ffff_f000,
{
}

/// The count hides nothing that the processor reads.
pub proof fn lemma_strip(e: u64)
    ensures
        entry_present(strip(e)) == entry_present(e),
        entry_huge(strip(e)) == entry_huge(e),
        entry_addr(strip(e)) == entry_addr(e),
        strip(strip(e)) == strip(e),
        entry_addr(entry_addr(e)) == entry_addr(e),
{
    lemma_strip_bits(e);
}

proof fn lemma_count_bits(e: u64, n: u64)
    by (bit_vector)
    requires
        n < 2048,
    ensures
        ((e & 0x800f_ffff_ffff_ffff) | (n << 52)) & 0x800f_ffff_ffff_ffff == e
            & 0x800f_ffff_ffff_ffff,
        (((e & 0x800f_ffff_ffff_ffff) | (n << 52)) >> 52) % 2048 == n,
        (0u64 & 0x800f_ffff_ffff_ffff) == 0,
{
}

pub proof fn lemma_shift_52(e: u64)
    ensures
        e >> 52 == e as nat / 0x10_0000_0000_0000,
        power2::pow2(52) == 0x10_0000_0000_0000,
        power2::pow2(11) == 2048,
{
    vstd::bits::lemma_u64_shr_is_div(e, 52);
    power2::lemma2_to64();
    power2::lemma2_to64_rest();
}

/// A count is read back as it was written, and writing it changes nothing else.
pub proof fn lemma_with_count(e: u64, n: u64)
    ensures
        strip(with_count(e, n)) == strip(e),
        count_of(with_count(e, n)) == n % COUNT_LIMIT,
{
    lemma_count_bits(e, n % COUNT_LIMIT);
    lemma_shift_52(with_count(e, n));
}

/// An entry of a page table.
#[derive(Debug, Clone, Copy, PartialEq, Eq, Structural)]
pub struct PageTablePointer(pub u64);

impl PageTablePointer {
    /// The entry that refers to the frame at `addr`.
    pub fn new(addr: u64, flags: PageTableFlags) -> (pointer: PageTablePointer)
        ensures
            pointer.0 == addr | flags.bits,
    {
        PageTablePointer(addr | flags.bits())
    }

    /// The table that a present entry refers to.
    pub fn as_ref<'a>(&self, mem: &'a PageMemory) -> (table: Option<&'a PageTable>)
        requires
            entry_present(self.0) ==> mem@.contains_key(entry_addr(self.0)),
        ensures
            table is Some <==> entry_present(self.0),
            table matches Some(t) ==> *t == mem@[entry_addr(self.0)],
    {
        if self.0 & PageTableFlags::PRESENT == 0 {
            None
        } else {
            mem.tables.get(&(self.0 & PAGE_ADDR_BITMASK))
        }
    }

    /// The table that a present entry refers to, to change it.
    pub fn as_mut<'a>(&self, mem: &'a mut PageMemory) -> (table: Option<&'a mut PageTable>)
        requires
            entry_present(self.0) ==> old(mem)@.contains_key(entry_addr(self.0)),
        ensures
            table is Some <==> entry_present(self.0),
            match table {
                Some(t) => {
                    &&& *t == old(mem)@[entry_addr(self.0)]
                    &&& final(mem)@ == old(mem)@.insert(entry_addr(self.0), *final(t))
                },
                None => final(mem)@ == old(mem)@,
            },
    {
        if self.0 & PageTableFlags::PRESENT == 0 {
            None
        } else {
            map_get_mut(&mut mem.tables, &(self.0 & PAGE_ADDR_BITMASK))
        }
    }

    pub fn flags(&self) -> (flags: PageTableFlags)
        ensures
            flags.bits == self.0 & PageTableFlags::ALL,
    {
        PageTableFlags::from_bits_truncate(self.0)
    }

    /// Replaces everything but the address.
    pub fn set_flags(&mut self, flags: PageTableFlags)
        ensures
            final(self).0 == entry_addr(old(self).0) | flags.bits,
    {
        self.0 = (self.0 & PAGE_ADDR_BITMASK) | flags.bits();
    }
}

/// Calls `BTreeMap::get_mut`: the value under `key`, to change it in place, or
/// nothing where the map has no such key. What is written through the reference
/// is what the map then holds under `key`, and every other key keeps its value.
/// Nothing is said for keys whose order is not known.
#[verifier::external_body]
pub(crate) fn map_get_mut<'a, K: Ord, V>(map: &'a mut BTreeMap<K, V>, key: &K) -> (value: Option<
    &'a mut V,
>)
    ensures
        vstd::laws_cmp::obeys_cmp::<K>() ==> match value {
            Some(v) => {
                &&& old(map)@.contains_key(*key)
                &&& *v == old(map)@[*key]
                &&& final(map)@ == old(map)@.insert(*key, *final(v))
            },
            None => !old(map)@.contains_key(*key) && final(map)@ == old(map)@,
        },
{
    map.get_mut(key)
}

/// The memory that holds page tables, by the physical address of their frames.
pub struct PageMemory {
    tables: BTreeMap<u64, PageTable>,
}

impl View for PageMemory {
    type V = Map<u64, PageTable>;

    closed spec fn view(&self) -> Map<u64, PageTable> {
        self.tables@
    }
}

impl PageMemory {
    /// Memory that holds no table.
    pub fn new() -> (mem: PageMemory)
        ensures
            mem@ == Map::<u64, PageTable>::empty(),
    {
        PageMemory { tables: BTreeMap::new() }
    }

    /// The table in the frame at `addr`.
    pub fn get(&self, addr: u64) -> (table: Option<&PageTable>)
        ensures
            table == if self@.contains_key(addr) {
                Some(&self@[addr])
            } else {
                None::<&PageTable>
            },
    {
        self.tables.get(&addr)
    }

    /// Puts a table into the frame at `addr`, in place of what was there.
    pub fn write(&mut self, addr: u64, table: PageTable)
        ensures
            final(self)@ == old(self)@.insert(addr, table),
    {
        self.tables.insert(addr, table);
    }

    /// Forgets the table in the frame at `addr`.
    pub fn clear(&mut self, addr: u64)
        ensures
            final(self)@ == old(self)@.remove(addr),
    {
        let _ = self.tables.remove(&addr);
    }
}

/// The frames that the tables in memory lie in, by their physical addresses.
pub open spec fn frames_of(tables: Map<u64, PageTable>) -> Map<u64, Allocation> {
    Map::new(|t: u64| tables.contains_key(t), |t: u64| tables[t].frame)
}

/// Hands out frames for page tables. A frame is given back as an allocation with the
/// address that it was handed out with and the size of one page.
///
/// An implementor that is to be verified says what `live` and `returned` are. Left as they
/// are, they are some functions of the allocator, of which nothing is known.
pub trait FrameAllocator: Sized {
    /// The frames that will not be handed out, by their physical addresses, each as it
    /// was handed out.
    closed spec fn live(&self) -> Map<u64, Allocation> {
        vstd::pervasive::arbitrary::<spec_fn(Self) -> Map<u64, Allocation>>()(*self)
    }

    /// What has been given back, in order.
    closed spec fn returned(&self) -> Seq<Allocation> {
        vstd::pervasive::arbitrary::<spec_fn(Self) -> Seq<Allocation>>()(*self)
    }

    /// Hands out a frame. Does not return where no frame is left.
    fn alloc_frame(&mut self) -> (frame: Allocation)
        ensures
            !old(self).live().contains_key(frame.phys),
            final(self).live() == old(self).live().insert(frame.phys, frame),
            final(self).returned() == old(self).returned(),
            entry_addr(frame.phys) == frame.phys,
            frame.virt + PAGE_SIZE <= u64::MAX,
    ;

    /// Takes a frame back that was handed out.
    fn dealloc_frame(&mut self, frame: Allocation)
        requires
            old(self).live().contains_key(frame.phys),
        ensures
            final(self).live() == old(self).live().remove(frame.phys),
            final(self).returned() == old(self).returned().push(frame),
    ;
}

/// Entries after `n` was added to the count that the first of them holds.
pub open spec fn counted(entries: Seq<PageTablePointer>, n: int) -> Seq<PageTablePointer> {
    entries.update(
        0,
        PageTablePointer(
            with_count(
                entries[0].0,
                ((count_of(entries[0].0) + n) % (COUNT_LIMIT as int)) as u64,
            ),
        ),
    )
}

/// Counting changes nothing that the processor reads.
pub proof fn lemma_counted(entries: Seq<PageTablePointer>, n: int)
    requires
        entries.len() == ENTRIES,
    ensures
        count_of(counted(entries, n)[0].0) == (count_of(entries[0].0) + n) % (COUNT_LIMIT as int),
        forall|i: int|
            0 <= i < ENTRIES ==> {
                &&& strip((#[trigger] counted(entries, n)[i]).0) == strip(entries[i].0)
                &&& entry_present(counted(entries, n)[i].0) == entry_present(entries[i].0)
            },
{
    let c = ((count_of(entries[0].0) + n) % (COUNT_LIMIT as int)) as u64;
    lemma_with_count(entries[0].0, c);
    lemma_strip(entries[0].0);
    lemma_strip(with_count(entries[0].0, c));
}

/// Setting an entry counts it, and changes no other entry. The first entry holds the count,
/// so that where it is set the count goes on from what the new entry holds.
pub proof fn lemma_set_counts(
    before: PageTable,
    after: PageTable,
    index: int,
    ptr: PageTablePointer,
)
    requires
        0 <= index < ENTRIES,
        after.is_set(before, index, ptr),
    ensures
        count_of(after.entries@[0].0) == (if index == 0 {
            count_of(ptr.0) + 1int
        } else {
            count_of(before.entries@[0].0) + 1int
        }) % (COUNT_LIMIT as int),
        strip(after.entries@[index].0) == strip(ptr.0),
        entry_present(after.entries@[index].0) == entry_present(ptr.0),
        forall|i: int|
            0 <= i < ENTRIES && i != index ==> strip((#[trigger] after.entries@[i]).0) == strip(
                before.entries@[i].0,
            ),
{
    lemma_counted(before.entries@.update(index, ptr), 1);
}

proof fn lemma_clear_bits(n: u64)
    by (bit_vector)
    ensures
        (n & !1u64) & 1 == 0,
        (n & !1u64) >> 52 == n >> 52,
{
}

/// An entry that is cleared is not in use, and holds the count that it held.
pub proof fn lemma_clear_present(n: u64)
    ensures
        !entry_present(n & !PageTableFlags::PRESENT),
        count_of(n & !PageTableFlags::PRESENT) == count_of(n),
{
    lemma_clear_bits(n);
    lemma_shift_52(n);
    lemma_shift_52(n & !PageTableFlags::PRESENT);
}

/// Clearing an entry takes it off the count, and changes no other entry.
pub proof fn lemma_clear_counts(before: PageTable, after: PageTable, index: int)
    requires
        0 <= index < ENTRIES,
        after.is_cleared(before, index),
    ensures
        count_of(after.entries@[0].0) == (count_of(before.entries@[0].0) - 1) % (COUNT_LIMIT as int),
        !entry_present(after.entries@[index].0),
        forall|i: int|
            0 <= i < ENTRIES && i != index ==> {
                &&& strip((#[trigger] after.entries@[i]).0) == strip(before.entries@[i].0)
                &&& entry_present(after.entries@[i].0) == entry_present(before.entries@[i].0)
            },
{
    let e = before.entries@[index].0;
    lemma_clear_present(e);
    lemma_counted(
        before.entries@.update(index, PageTablePointer(e & !PageTableFlags::PRESENT)),
        -1,
    );
}

/// A page table, with the frame that it lies in.
#[derive(Debug)]
pub struct PageTable {
    pub frame: Allocation,
    pub entries: [PageTablePointer; 512],
}

impl PageTable {
    /// No entry is in use, and the count is `n`.
    pub open spec fn is_blank(self, n: u64) -> bool {
        self.entries@ == Seq::new(ENTRIES as nat, |i: int| PageTablePointer(0)).update(
            0,
            PageTablePointer(with_count(0, n)),
        )
    }

    /// This table is `before` with one entry set and counted.
    pub open spec fn is_set(self, before: PageTable, index: int, ptr: PageTablePointer) -> bool {
        &&& self.frame == before.frame
        &&& self.entries@ == counted(before.entries@.update(index, ptr), 1)
    }

    /// This table is `before` with one entry cleared and taken off the count.
    pub open spec fn is_cleared(self, before: PageTable, index: int) -> bool {
        &&& self.frame == before.frame
        &&& self.entries@ == counted(
            before.entries@.update(
                index,
                PageTablePointer(before.entries@[index].0 & !PageTableFlags::PRESENT),
            ),
            -1,
        )
    }

    /// What is given back where this table is no longer needed.
    pub open spec fn page_frame(self) -> Allocation {
        Allocation { virt: self.frame.virt, phys: self.frame.phys, len: PAGE_SIZE }
    }

    /// A table without entries in a frame of its own. A table that is not
    /// `dropable` counts one entry more than it has, so that it never counts as
    /// empty.
    pub fn new<T: FrameAllocator>(
        mem: &mut PageMemory,
        allocer: &mut T,
        flags: PageTableFlags,
        dropable: bool,
    ) -> (pointer: PageTablePointer)
        requires
            flags.valid(),
        ensures
            pointer.0 == entry_addr(pointer.0) | (flags.bits | PageTableFlags::PRESENT),
            entry_present(pointer.0),
            entry_huge(pointer.0) == flags::has_all(flags.bits, PageTableFlags::HUGE),
            !old(allocer).live().contains_key(entry_addr(pointer.0)),
            final(allocer).live() == old(allocer).live().insert(
                entry_addr(pointer.0),
                final(mem)@[entry_addr(pointer.0)].frame,
            ),
            final(allocer).returned() == old(allocer).returned(),
            final(mem)@.contains_key(entry_addr(pointer.0)),
            final(mem)@[entry_addr(pointer.0)].frame.phys == entry_addr(pointer.0),
            final(mem)@[entry_addr(pointer.0)].is_blank(
                if dropable {
                    0
                } else {
                    1
                },
            ),
            final(mem)@ == old(mem)@.insert(
                entry_addr(pointer.0),
                final(mem)@[entry_addr(pointer.0)],
            ),
    {
        let frame = allocer.alloc_frame();
        let mut table = PageTable { frame, entries: [PageTablePointer(0); 512] };
        let bits: u64 = flags.bits() | PageTableFlags::PRESENT;
        let out = PageTablePointer(frame.phys | bits);
        proof {
            lemma_new_entry(frame.phys, flags.bits);
            lemma_count_bits(0, 0);
            assert(with_count(0, 0) == 0) by {
                lemma_zero_count();
            }
            assert(table.entries@ =~= Seq::new(
                ENTRIES as nat,
                |i: int| PageTablePointer(0),
            ).update(0, PageTablePointer(with_count(0, 0))));
        }
        if !dropable {
            table.set_count(1);
            assert(table.entries@ =~= Seq::new(
                ENTRIES as nat,
                |i: int| PageTablePointer(0),
            ).update(0, PageTablePointer(with_count(0, 1))));
        }
        mem.write(frame.phys, table);
        out
    }

    /// The number that the table counts.
    pub fn count(&self) -> (count: u64)
        ensures
            count == count_of(self.entries@[0].0),
    {
        proof {
            lemma_shift_52(self.entries@[0].0);
        }
        get_bits(self.entries[0].0, 52, 63)
    }

    /// Replaces the count.
    pub fn set_count(&mut self, n: u64)
        ensures
            final(self).frame == old(self).frame,
            final(self).entries@ == old(self).entries@.update(
                0,
                PageTablePointer(with_count(old(self).entries@[0].0, n)),
            ),
    {
        proof {
            power2::lemma2_to64();
        }
        let n: u64 = get_bits(n, 0, 11);
        let ptr_no_count: u64 = self.entries[0].0 & NO_COUNT_BITMASK;
        self.entries[0] = PageTablePointer(ptr_no_count | (n << 52));
    }

    /// Adds to the count, which wraps around at its limit.
    pub fn inc_count(&mut self, n: i64)
        requires
            n <= i64::MAX - COUNT_LIMIT,
        ensures
            final(self).frame == old(self).frame,
            final(self).entries@ == counted(old(self).entries@, n as int),
    {
        let sum: i64 = self.count() as i64 + n;
        proof {
            assert(sum < 0 ==> (sum as u64) == sum + 0x1_0000_0000_0000_0000) by (bit_vector);
            assert((sum as u64) % COUNT_LIMIT == (sum as int) % (COUNT_LIMIT as int));
            let m = ((count_of(self.entries@[0].0) + n) % (COUNT_LIMIT as int)) as u64;
            assert(m % COUNT_LIMIT == m);
        }
        self.set_count(sum as u64);
    }

    pub fn present(&self, index: usize) -> (present: bool)
        requires
            index < ENTRIES,
        ensures
            present == entry_present(self.entries@[index as int].0),
    {
        (self.entries[index].0 & PageTableFlags::PRESENT) != 0
    }

    /// Gives the table's frame back where the table counts no entry.
    pub fn free_if_empty<T: FrameAllocator>(&self, allocer: &mut T) -> (freed: bool)
        requires
            count_of(self.entries@[0].0) == 0 ==> old(allocer).live().contains_key(
                self.frame.phys,
            ),
        ensures
            freed == (count_of(self.entries@[0].0) == 0),
            freed ==> {
                &&& final(allocer).live() == old(allocer).live().remove(self.frame.phys)
                &&& final(allocer).returned() == old(allocer).returned().push(self.page_frame())
            },
            !freed ==> *final(allocer) == *old(allocer),
    {
        if self.count() == 0 {
            self.dealloc(allocer);
            true
        } else {
            false
        }
    }

    /// Gives the table's frame back.
    pub fn dealloc<T: FrameAllocator>(&self, allocer: &mut T)
        requires
            old(allocer).live().contains_key(self.frame.phys),
        ensures
            final(allocer).live() == old(allocer).live().remove(self.frame.phys),
            final(allocer).returned() == old(allocer).returned().push(self.page_frame()),
    {
        let frame = Allocation { virt: self.addr(), phys: self.frame.phys, len: PAGE_SIZE };
        allocer.dealloc_frame(frame);
    }

    /// Sets an entry that is not in use, and counts it. The first entry holds the count, so
    /// that setting it starts the count over.
    pub fn set(&mut self, index: usize, ptr: PageTablePointer)
        requires
            index < ENTRIES,
            !entry_present(old(self).entries@[index as int].0),
        ensures
            final(self).is_set(*old(self), index as int, ptr),
    {
        self.entries[index] = ptr;
        self.inc_count(1);
    }

    /// Clears an entry, and takes it off the count.
    pub fn clear(&mut self, index: usize)
        requires
            index < ENTRIES,
        ensures
            final(self).is_cleared(*old(self), index as int),
    {
        let n: u64 = self.entries[index].0;
        self.entries[index] = PageTablePointer(n & !PageTableFlags::PRESENT);
        self.inc_count(-1);
    }

    /// Whether an entry is in use, whatever the table counts.
    pub fn has_entries(&self) -> (used: bool)
        ensures
            used == exists|i: int|
                0 <= i < ENTRIES && entry_present((#[trigger] self.entries@[i]).0),
    {
        let mut i: usize = 0;
        while i < ENTRIES
            invariant
                i <= ENTRIES,
                forall|k: int| 0 <= k < i ==> !entry_present((#[trigger] self.entries@[k]).0),
            decreases ENTRIES - i,
        {
            if self.present(i) {
                return true;
            }
            i = i + 1;
        }
        false
    }

    /// The address at which the kernel sees the table.
    pub fn addr(&self) -> (addr: u64)
        ensures
            addr == self.frame.virt,
    {
        self.frame.virt
    }
}

proof fn lemma_new_entry_bits(addr: u64, flags: u64)
    by (bit_vector)
    requires
        addr & 0x000f_ffff_ffff_f000 == addr,
        flags & 0x8000_0000_0000_01ff == flags,
    ensures
        (addr | (flags | 1)) & 0x000f_ffff_ffff_f000 == addr,
        (addr | (flags | 1)) & 1 != 0,
        (addr | (flags | 1)) & (1u64 << 7) == flags & (1u64 << 7),
{
}

proof fn lemma_new_entry(addr: u64, flags: u64)
    requires
        entry_addr(addr) == addr,
        flags & PageTableFlags::ALL == flags,
    ensures
        entry_addr(addr | (flags | PageTableFlags::PRESENT)) == addr,
        entry_present(addr | (flags | PageTableFlags::PRESENT)),
        entry_huge(addr | (flags | PageTableFlags::PRESENT)) == flags::has_all(
            flags,
            PageTableFlags::HUGE,
        ),
{
    lemma_new_entry_bits(addr, flags);
}

proof fn lemma_zero_count()
    by (bit_vector)
    ensures
        (0u64 & 0x800f_ffff_ffff_ffff) | ((0u64 % 2048) << 52) == 0,
        (0u64 & 1) == 0,
{
}

} // verus!
