//! What holds of the calls on page tables, said of the bits of their entries, and what the
//! processor reads out of these bits.
use vstd::prelude::*;
use crate::mem::addr::{Allocation, PageSize, VirtFrame, VirtRange};
use crate::mem::flags::PageTableFlags;
use crate::mem::layout::VirtLayout;
use crate::mem::mapper;
use crate::mem::mapper::{MapError, VirtMapper};
use crate::mem::mapping;
use crate::mem::mapping::PageMappingAction;
use crate::mem::page_table;
use crate::mem::page_table::{FrameAllocator, PageMemory, PageTable, PageTablePointer};
use crate::mem::translate;
use crate::mem::walk;
use crate::mem::walk::indices;

verus! {

proof fn lemma_entry_numbers(e: u64)
    by (bit_vector)
    ensures
        1u64 << 7 == 0x80,
        e & 0x80 == 0 || e & 0x80 == 0x80,
        e & 1 == 0 || e & 1 == 1,
        ((e & 0x800f_ffff_ffff_ffff) & 0x000f_ffff_ffff_f000) == e & 0x000f_ffff_ffff_f000,
        ((e & 0x800f_ffff_ffff_ffff) & 0x8000_0000_0000_01ff) == e & 0x8000_0000_0000_01ff,
{
}

proof fn lemma_cleared_bits(e: u64, c: u64)
    by (bit_vector)
    requires
        c & 0x800f_ffff_ffff_ffff == (e & !1u64) & 0x800f_ffff_ffff_ffff,
    ensures
        c & 0x800f_ffff_ffff_fffe == e & 0x800f_ffff_ffff_fffe,
        c & 1 == 0,
{
}

/// The bits of an address tell the four steps of its walk, from the highest to the lowest, and
/// with what lies below a page they tell the address.
pub proof fn lemma_steps_of_address(a: u64, nums: [usize; 4])
    requires
        call_ensures(indices, (a,), nums),
    ensures
        nums@[0] < 512 && nums@[1] < 512 && nums@[2] < 512 && nums@[3] < 512,
        nums@[0] * 0x80_0000_0000 + nums@[1] * 0x4000_0000 + nums@[2] * 0x20_0000 + nums@[3]
            * 0x1000 + a % 0x1000 == a % 0x1_0000_0000_0000,
{
    assert(nums@[0] == walk::index_of(a, 0) && nums@[0] < 512);
    assert(nums@[1] == walk::index_of(a, 1) && nums@[1] < 512);
    assert(nums@[2] == walk::index_of(a, 2) && nums@[2] < 512);
    assert(nums@[3] == walk::index_of(a, 3) && nums@[3] < 512);
    lemma_parts_of_number(a as int);
}

proof fn lemma_parts_of_number(a: int)
    requires
        0 <= a,
    ensures
        (a / 0x80_0000_0000) % 512 * 0x80_0000_0000 + (a / 0x4000_0000) % 512 * 0x4000_0000 + (a
            / 0x20_0000) % 512 * 0x20_0000 + (a / 0x1000) % 512 * 0x1000 + a % 0x1000 == a
            % 0x1_0000_0000_0000,
{
    let p = a / 0x1000;
    let q = a / 0x20_0000;
    let r = a / 0x4000_0000;
    let t = a / 0x80_0000_0000;
    assert(p == q * 512 + p % 512);
    assert(q == r * 512 + q % 512);
    assert(r == t * 512 + r % 512);
    assert(a / 0x1_0000_0000_0000 == t / 512);
}

/// An entry of a table holds its address and its flags apart. Replacing the flags keeps the
/// address.
pub proof fn lemma_entry_parts(
    start: u64,
    flags: PageTableFlags,
    made: PageTablePointer,
    told: PageTableFlags,
    changed: &mut PageTablePointer,
)
    requires
        call_ensures(PageTablePointer::new, (start, flags), made),
        call_ensures(PageTablePointer::flags, (&made,), told),
        call_ensures(PageTablePointer::set_flags, (changed, flags), ()),
    ensures
        made.0 == start | flags.bits,
        told.bits == made.0 & 0x8000_0000_0000_01ff,
        final(changed).0 == (old(changed).0 & 0x000f_ffff_ffff_f000) | flags.bits,
{
}

/// A present entry leads to the table at its address, and an entry that is not present leads
/// nowhere.
pub proof fn lemma_entry_leads_to_table(
    entry: PageTablePointer,
    mem: &PageMemory,
    table: Option<&PageTable>,
    mem_addr: u64,
    got: Option<&PageTable>,
)
    requires
        call_ensures(PageTablePointer::as_ref, (&entry, mem), table),
        call_ensures(PageMemory::get, (mem, mem_addr), got),
    ensures
        table is Some <==> entry.0 & 1 != 0,
        table matches Some(t) ==> *t == mem@[entry.0 & 0x000f_ffff_ffff_f000],
        got is Some <==> mem@.contains_key(mem_addr),
        got matches Some(t) ==> *t == mem@[mem_addr],
{
}

/// A table that is written to memory is there, one that is cleared is not, and the others stay.
pub proof fn lemma_memory_of_tables(
    written: &mut PageMemory,
    cleared: &mut PageMemory,
    start: u64,
    table: PageTable,
    empty: PageMemory,
)
    requires
        call_ensures(PageMemory::write, (written, start, table), ()),
        call_ensures(PageMemory::clear, (cleared, start), ()),
        call_ensures(PageMemory::new, (), empty),
    ensures
        final(written)@ == old(written)@.insert(start, table),
        final(cleared)@ == old(cleared)@.remove(start),
        empty@.dom() == Set::<u64>::empty(),
{
}

/// A table counts in bits 52 to 62 of its first entry, and its other bits are the entry's.
pub proof fn lemma_count_of_table(
    table: PageTable,
    count: u64,
    set: &mut PageTable,
    n: u64,
    i: int,
)
    requires
        call_ensures(PageTable::count, (&table,), count),
        call_ensures(PageTable::set_count, (set, n), ()),
        0 <= i < 512,
    ensures
        count == (table.entries@[0].0 as int / 0x10_0000_0000_0000) % 2048,
        (final(set).entries@[0].0 as int / 0x10_0000_0000_0000) % 2048 == n % 2048,
        final(set).entries@[i].0 & 0x800f_ffff_ffff_ffff == old(set).entries@[i].0
            & 0x800f_ffff_ffff_ffff,
        i > 0 ==> final(set).entries@[i] == old(set).entries@[i],
        final(set).frame == old(set).frame,
{
    page_table::lemma_with_count(old(set).entries@[0].0, n);
}

/// A table that counts more or less than before counts by that many, and starts over at 2048.
/// Nothing else of it changes.
pub proof fn lemma_counted_table(table: &mut PageTable, n: i64, i: int)
    requires
        call_ensures(PageTable::inc_count, (table, n), ()),
        0 <= i < 512,
    ensures
        (final(table).entries@[0].0 as int / 0x10_0000_0000_0000) % 2048 == ((old(
            table,
        ).entries@[0].0 as int / 0x10_0000_0000_0000) % 2048 + n) % 2048,
        final(table).entries@[i].0 & 0x800f_ffff_ffff_ffff == old(table).entries@[i].0
            & 0x800f_ffff_ffff_ffff,
        i > 0 ==> final(table).entries@[i] == old(table).entries@[i],
        final(table).frame == old(table).frame,
{
    page_table::lemma_counted(old(table).entries@, n as int);
    assert(page_table::strip(page_table::counted(old(table).entries@, n as int)[i].0)
        == page_table::strip(old(table).entries@[i].0));
}

/// An entry that is set reads as what it was set to, the others read as before, and the table
/// counts one more. The first entry brings its own count.
pub proof fn lemma_set_entry(table: &mut PageTable, index: usize, ptr: PageTablePointer, i: int)
    requires
        index < 512,
        call_ensures(PageTable::set, (table, index, ptr), ()),
        0 <= i < 512,
    ensures
        final(table).entries@[i].0 & 0x800f_ffff_ffff_ffff == if i == index {
            ptr.0 & 0x800f_ffff_ffff_ffff
        } else {
            old(table).entries@[i].0 & 0x800f_ffff_ffff_ffff
        },
        (final(table).entries@[0].0 as int / 0x10_0000_0000_0000) % 2048 == ((if index == 0 {
            ptr.0 as int
        } else {
            old(table).entries@[0].0 as int
        } / 0x10_0000_0000_0000) % 2048 + 1) % 2048,
        final(table).frame == old(table).frame,
{
    page_table::lemma_set_counts(*old(table), *final(table), index as int, ptr);
    assert(i != index ==> page_table::strip(final(table).entries@[i].0) == page_table::strip(
        old(table).entries@[i].0,
    ));
}

/// An entry that is cleared is not present, and keeps its other bits; the others read as
/// before, and the table counts one less.
pub proof fn lemma_clear_entry(table: &mut PageTable, index: usize, i: int)
    requires
        index < 512,
        call_ensures(PageTable::clear, (table, index), ()),
        0 <= i < 512,
    ensures
        final(table).entries@[index as int].0 & 1 == 0,
        final(table).entries@[i].0 & 0x800f_ffff_ffff_fffe == old(table).entries@[i].0
            & 0x800f_ffff_ffff_fffe,
        i != index ==> final(table).entries@[i].0 & 0x800f_ffff_ffff_ffff == old(
            table,
        ).entries@[i].0 & 0x800f_ffff_ffff_ffff,
        (final(table).entries@[0].0 as int / 0x10_0000_0000_0000) % 2048 == ((old(
            table,
        ).entries@[0].0 as int / 0x10_0000_0000_0000) % 2048 - 1) % 2048,
        final(table).frame == old(table).frame,
{
    let k = index as int;
    page_table::lemma_clear_counts(*old(table), *final(table), k);
    let e = old(table).entries@[k].0;
    let update = old(table).entries@.update(k, PageTablePointer(e & !PageTableFlags::PRESENT));
    page_table::lemma_counted(update, -1);
    assert(page_table::strip(page_table::counted(update, -1)[k].0) == page_table::strip(
        update[k].0,
    ));
    lemma_cleared_bits(e, final(table).entries@[k].0);
    if i != index {
        let c = final(table).entries@[i].0;
        assert(page_table::strip(c) == page_table::strip(old(table).entries@[i].0));
        lemma_rest_bits(old(table).entries@[i].0, c);
    }
}

proof fn lemma_rest_bits(e: u64, c: u64)
    by (bit_vector)
    requires
        c & 0x800f_ffff_ffff_ffff == e & 0x800f_ffff_ffff_ffff,
    ensures
        c & 0x800f_ffff_ffff_fffe == e & 0x800f_ffff_ffff_fffe,
{
}

/// A table tells which of its entries are present, whether any is, and where it lies.
pub proof fn lemma_what_tables_tell(
    table: PageTable,
    index: usize,
    present: bool,
    used: bool,
    seen: u64,
)
    requires
        index < 512,
        call_ensures(PageTable::present, (&table, index), present),
        call_ensures(PageTable::has_entries, (&table,), used),
        call_ensures(PageTable::addr, (&table,), seen),
    ensures
        present <==> table.entries@[index as int].0 & 1 != 0,
        present ==> used,
        used ==> exists|i: int| 0 <= i < 512 && (#[trigger] table.entries@[i]).0 & 1 != 0,
        seen == table.frame.virt,
{
    if used {
        let i = choose|i: int|
            0 <= i < page_table::ENTRIES && page_table::entry_present(
                (#[trigger] table.entries@[i]).0,
            );
        assert(table.entries@[i].0 & 1 != 0);
    }
}

/// A table that is given back goes back as one page, with the addresses of its frame. Where
/// only an empty table is to be given back, it is where it counts nothing.
pub proof fn lemma_given_back_table<T: FrameAllocator>(
    table: PageTable,
    allocer: &mut T,
    empty_allocer: &mut T,
    freed: bool,
)
    requires
        call_ensures(PageTable::dealloc::<T>, (&table, allocer), ()),
        call_ensures(PageTable::free_if_empty::<T>, (&table, empty_allocer), freed),
    ensures
        final(allocer).returned() == old(allocer).returned().push(
            Allocation { virt: table.frame.virt, phys: table.frame.phys, len: 4096 },
        ),
        final(allocer).live() == old(allocer).live().remove(table.frame.phys),
        freed <==> (table.entries@[0].0 as int / 0x10_0000_0000_0000) % 2048 == 0,
        !freed ==> *final(empty_allocer) == *old(empty_allocer),
        freed ==> {
            &&& final(empty_allocer).returned() == old(empty_allocer).returned().push(
                Allocation { virt: table.frame.virt, phys: table.frame.phys, len: 4096 },
            )
            &&& final(empty_allocer).live() == old(empty_allocer).live().remove(table.frame.phys)
        },
{
}

/// A new table lies in a frame that was not in use, and none of its entries is present. It
/// counts nothing where it may be dropped, and one where it may not. The entry that refers to
/// it is present, and has the flags that it was to have.
pub proof fn lemma_new_table<T: FrameAllocator>(
    mem: &mut PageMemory,
    allocer: &mut T,
    flags: PageTableFlags,
    dropable: bool,
    pointer: PageTablePointer,
    i: int,
)
    requires
        flags.valid(),
        call_ensures(PageTable::new::<T>, (mem, allocer, flags, dropable), pointer),
        0 <= i < 512,
    ensures
        ({
            let t = pointer.0 & 0x000f_ffff_ffff_f000;
            &&& pointer.0 == t | (flags.bits | 1)
            &&& pointer.0 & 1 != 0
            &&& !old(allocer).live().contains_key(t)
            &&& final(allocer).live().contains_key(t)
            &&& final(mem)@ == old(mem)@.insert(t, final(mem)@[t])
            &&& final(mem)@[t].frame.phys == t
            &&& final(mem)@[t].entries@[i].0 & 0x800f_ffff_ffff_ffff == 0
            &&& (final(mem)@[t].entries@[0].0 as int / 0x10_0000_0000_0000) % 2048 == if dropable {
                0int
            } else {
                1int
            }
        }),
{
    let t = pointer.0 & 0x000f_ffff_ffff_f000;
    let n: u64 = if dropable { 0 } else { 1 };
    let table = final(mem)@[t];
    walk::lemma_blank_unused(table, n, i);
    page_table::lemma_with_count(0, n);
    lemma_nothing();
}

proof fn lemma_nothing()
    by (bit_vector)
    ensures
        0u64 & 0x800f_ffff_ffff_ffff == 0,
        0u64 & 1 == 0,
{
}

/// What the processor makes of an address: each of four steps reads nine bits of the address,
/// from the highest to the lowest, as an index into a table, and goes on to the table whose
/// address the entry there holds. It ends at an entry that is not present, which leads
/// nowhere, or at a page: one of 1 GiB at the second step, or of 2 MiB at the third, where the
/// entry says so, and one of 4 KiB at the fourth. The bits below the page are kept.
pub proof fn lemma_what_the_processor_reads(mem: Map<u64, PageTable>, root: u64, a: u64)
    requires
        mem.contains_key(root),
    ensures
        ({
            let pages = walk::pages(mem, root);
            let e1 = mem[root].entries@[a as int / 0x80_0000_0000 % 512].0;
            let t2 = e1 & 0x000f_ffff_ffff_f000;
            let e2 = mem[t2].entries@[a as int / 0x4000_0000 % 512].0;
            let t3 = e2 & 0x000f_ffff_ffff_f000;
            let e3 = mem[t3].entries@[a as int / 0x20_0000 % 512].0;
            let t4 = e3 & 0x000f_ffff_ffff_f000;
            let e4 = mem[t4].entries@[a as int / 0x1000 % 512].0;
            let page = if e1 & 1 == 0 || e1 & 0x80 != 0 {
                None
            } else if e2 & 0x80 != 0 {
                if e2 & 1 != 0 {
                    Some((e2, 0x4000_0000int))
                } else {
                    None
                }
            } else if e2 & 1 == 0 || !mem.contains_key(t2) {
                None
            } else if e3 & 0x80 != 0 {
                if e3 & 1 != 0 {
                    Some((e3, 0x20_0000int))
                } else {
                    None
                }
            } else if e3 & 1 == 0 || !mem.contains_key(t3) || !mem.contains_key(t4) || e4 & 1 == 0 {
                None
            } else {
                Some((e4, 0x1000int))
            };
            walk::is_tree(mem, root) ==> match page {
                Some((e, size)) => {
                    &&& translate::translate(pages, a) == Some(
                        (e & 0x000f_ffff_ffff_f000) + a as int % size,
                    )
                    &&& translate::access(pages, a) == Some(e & 0x8000_0000_0000_01ff)
                },
                None => {
                    &&& translate::translate(pages, a) is None
                    &&& translate::access(pages, a) is None
                },
            }
        }),
{
    if walk::is_tree(mem, root) {
        let p1 = walk::path_of(a, 1);
        let p2 = walk::path_of(a, 2);
        let p3 = walk::path_of(a, 3);
        let p4 = walk::path_of(a, 4);
        assert(p1.drop_last() =~= Seq::empty());
        assert(p2.drop_last() =~= p1);
        assert(p3.drop_last() =~= p2);
        assert(p4.drop_last() =~= p3);
        reveal_with_fuel(walk::table_at, 5);
        let e1 = mem[root].entries@[a as int / 0x80_0000_0000 % 512].0;
        let t2 = e1 & 0x000f_ffff_ffff_f000;
        let e2 = mem[t2].entries@[a as int / 0x4000_0000 % 512].0;
        let t3 = e2 & 0x000f_ffff_ffff_f000;
        let e3 = mem[t3].entries@[a as int / 0x20_0000 % 512].0;
        let t4 = e3 & 0x000f_ffff_ffff_f000;
        let e4 = mem[t4].entries@[a as int / 0x1000 % 512].0;
        lemma_entry_numbers(e1);
        lemma_entry_numbers(e2);
        lemma_entry_numbers(e3);
        lemma_entry_numbers(e4);
        page_table::lemma_strip(e1);
        page_table::lemma_strip(e2);
        page_table::lemma_strip(e3);
        page_table::lemma_strip(e4);
        assert(walk::valid_path(p1) && walk::valid_path(p2) && walk::valid_path(p3)
            && walk::valid_path(p4));
        assert(walk::table_at(mem, root, Seq::empty()) == Some(root));
        let s1 = walk::table_at(mem, root, p1);
        let s2 = walk::table_at(mem, root, p2);
        let s3 = walk::table_at(mem, root, p3);
        assert(s1 == walk::child(mem, root, p1.last()));
        assert(s1 is Some ==> mem.contains_key(s1->0) && s2 == walk::child(mem, s1->0, p2.last()));
        assert(s2 is Some ==> mem.contains_key(s2->0) && s3 == walk::child(mem, s2->0, p3.last()));
        assert(s3 is Some ==> mem.contains_key(s3->0));
        assert(s1 is Some <==> e1 & 1 != 0 && e1 & 0x80 == 0);
        assert(s1 is Some ==> s1 == Some(t2));
        assert(s1 is Some ==> walk::lookup(mem, root, p2) == Some(page_table::strip(e2)));
        assert(s1 is None ==> walk::lookup(mem, root, p2) is None);
        assert(s2 is Some ==> s1 is Some && s2 == Some(t3));
        assert(s2 is Some ==> walk::lookup(mem, root, p3) == Some(page_table::strip(e3)));
        assert(s2 is None ==> walk::lookup(mem, root, p3) is None);
        assert(s3 is Some ==> s2 is Some && s3 == Some(t4));
        assert(s3 is Some ==> walk::lookup(mem, root, p4) == Some(page_table::strip(e4)));
        assert(s3 is None ==> walk::lookup(mem, root, p4) is None);
    }
}

proof fn lemma_hung_up_tables(links: Map<Seq<int>, u64>, path: Seq<int>, n: int, q: Seq<int>)
    ensures
        links.contains_key(q) ==> walk::with_parents(links, path, n).contains_key(q)
            && walk::with_parents(links, path, n)[q] == links[q],
        walk::with_parents(links, path, n).contains_key(q) && !links.contains_key(q)
            ==> walk::with_parents(links, path, n)[q] == 7,
    decreases n,
{
    if n > 0 {
        lemma_hung_up_tables(links, path, n - 1, q);
    }
}

proof fn lemma_hung_up_by_actions(
    links: Map<Seq<int>, u64>,
    pages: Map<Seq<int>, u64>,
    actions: Seq<PageMappingAction>,
    q: Seq<int>,
)
    ensures
        mapper::link_all(links, pages, actions).contains_key(q) ==> {
            ||| mapper::link_all(links, pages, actions)[q] == 7
            ||| links.contains_key(q) && mapper::link_all(links, pages, actions)[q] == links[q]
        },
    decreases actions.len(),
{
    if actions.len() > 0 {
        let before = mapper::link_all(links, pages, actions.drop_last());
        lemma_hung_up_by_actions(links, pages, actions.drop_last(), q);
        match actions.last() {
            PageMappingAction::MapFrame(_, vframe, _) => {
                lemma_hung_up_tables(
                    before,
                    mapping::frame_path(vframe),
                    mapping::depth_of(vframe.page()) - 1,
                    q,
                );
            },
            PageMappingAction::UnmapFrame(_) => {},
            PageMappingAction::ReserveFrame(_) => {},
        }
    }
}

/// The entries that refer to tables which are hung up for a layout are present, writable and
/// for user mode, and may be executed, so that the entry of the page decides. Those that were
/// there keep their flags.
pub proof fn lemma_flags_on_the_way<T: FrameAllocator>(
    mapper: &mut VirtMapper<T>,
    phys_zones: VirtLayout,
    flush: &mut Vec<u64>,
    range: VirtRange,
    q: Seq<int>,
)
    requires
        call_ensures(
            VirtMapper::<T>::map,
            (mapper, phys_zones, flush),
            Ok::<VirtRange, MapError>(range),
        ),
        final(mapper).links().contains_key(q),
    ensures
        final(mapper).links()[q] == 7 || old(mapper).links().contains_key(q)
            && final(mapper).links()[q] == old(mapper).links()[q],
{
    lemma_hung_up_by_actions(
        old(mapper).links(),
        old(mapper).pages(),
        mapper::actions_for(phys_zones.data@, range.addr as int, true),
        q,
    );
}

/// Releasing an address space gives every table back that a walk from the root leads to, each
/// once, as one page with the addresses of its frame, and nothing else.
pub proof fn lemma_released_tables<T: FrameAllocator>(
    mapper: &mut VirtMapper<T>,
    mem: Vec<Allocation>,
    t: u64,
)
    requires
        old(mapper).wf(),
        call_ensures(VirtMapper::<T>::release, (mapper,), mem),
    ensures
        ({
            let before = old(mapper).frame_allocator().returned();
            let after = final(mapper).frame_allocator().returned();
            let tables = old(mapper).tables();
            let given = after.skip(before.len() as int);
            &&& after == before + given
            &&& forall|k: int, l: int|
                0 <= k < l < given.len() ==> (#[trigger] given[k]).phys != (
                #[trigger] given[l]).phys
            &&& forall|k: int|
                0 <= k < given.len() ==> (#[trigger] given[k]) == (Allocation {
                    virt: tables[given[k].phys].frame.virt,
                    phys: tables[given[k].phys].frame.phys,
                    len: 4096,
                })
            &&& (exists|k: int| 0 <= k < given.len() && (#[trigger] given[k]).phys == t) <==> (
            exists|q: Seq<int>|
                q.len() <= 3 && (forall|k: int| 0 <= k < q.len() ==> 0 <= #[trigger] q[k] < 512)
                    && #[trigger] walk::table_at(tables, old(mapper).root(), q) == Some(t))
        }),
{
    lemma_given_up(
        old(mapper).tables(),
        old(mapper).root(),
        3,
        old(mapper).frame_allocator().returned(),
        final(mapper).frame_allocator().returned(),
        t,
    );
}

/// Unmapping a range gives the tables back that are no longer there, each once, as one page
/// with the addresses of its frame, and nothing else.
pub proof fn lemma_dropped_tables<T: FrameAllocator>(
    mapper: &mut VirtMapper<T>,
    range: VirtRange,
    flush: &mut Vec<u64>,
    phys_zones: VirtLayout,
    t: u64,
)
    requires
        call_ensures(
            VirtMapper::<T>::unmap,
            (mapper, range, flush),
            Ok::<VirtLayout, MapError>(phys_zones),
        ),
    ensures
        ({
            let before = old(mapper).frame_allocator().returned();
            let after = final(mapper).frame_allocator().returned();
            let tables = old(mapper).tables();
            let given = after.skip(before.len() as int);
            &&& after == before + given
            &&& forall|k: int, l: int|
                0 <= k < l < given.len() ==> (#[trigger] given[k]).phys != (
                #[trigger] given[l]).phys
            &&& forall|k: int|
                0 <= k < given.len() ==> (#[trigger] given[k]) == (Allocation {
                    virt: tables[given[k].phys].frame.virt,
                    phys: tables[given[k].phys].frame.phys,
                    len: 4096,
                })
            &&& (exists|k: int| 0 <= k < given.len() && (#[trigger] given[k]).phys == t)
                <==> tables.contains_key(t) && !final(mapper).tables().contains_key(t)
        }),
{
    let before = old(mapper).frame_allocator().returned();
    let after = final(mapper).frame_allocator().returned();
    let given = after.skip(before.len() as int);
    let n = before.len() as int;
    assert(after =~= before + given) by {
        assert(after.take(n) == before);
        assert(after =~= after.take(n) + given);
    }
    assert forall|k: int, l: int| 0 <= k < l < given.len() implies (#[trigger] given[k]).phys != (
    #[trigger] given[l]).phys by {
        assert(given[k] == after[n + k] && given[l] == after[n + l]);
    }
    assert forall|k: int| 0 <= k < given.len() implies (#[trigger] given[k]) == (Allocation {
        virt: old(mapper).tables()[given[k].phys].frame.virt,
        phys: old(mapper).tables()[given[k].phys].frame.phys,
        len: 4096,
    }) by {
        assert(given[k] == after[n + k]);
    }
    if exists|k: int| 0 <= k < given.len() && (#[trigger] given[k]).phys == t {
        let k = choose|k: int| 0 <= k < given.len() && (#[trigger] given[k]).phys == t;
        assert(given[k] == after[n + k]);
    }
    if old(mapper).tables().contains_key(t) && !final(mapper).tables().contains_key(t) {
        let i = choose|i: int| before.len() <= i < after.len() && (#[trigger] after[i]).phys == t;
        assert(given[i - n] == after[i]);
    }
}

/// The entry that is got is the one at the index. Where a table is wanted and there is none,
/// a new one is hung up there: the entry refers to it with the flags that are wanted, and it
/// has no entry and counts nothing. Where there is one, nothing changes.
pub proof fn lemma_got_table<T: FrameAllocator>(
    mem: &mut PageMemory,
    table: PageTablePointer,
    index: usize,
    allocer: &mut T,
    flags: PageTableFlags,
    pointer: PageTablePointer,
    i: int,
)
    requires
        index < 512,
        flags.valid(),
        call_ensures(
            PageTable::get_or_alloc::<T>,
            (mem, table, index, allocer, flags),
            pointer,
        ),
        0 <= i < 512,
    ensures
        ({
            let t = table.0 & 0x000f_ffff_ffff_f000;
            let e = old(mem)@[t].entries@[index as int].0;
            let f = pointer.0 & 0x000f_ffff_ffff_f000;
            &&& e & 1 != 0 ==> {
                &&& pointer.0 == e
                &&& final(mem)@ == old(mem)@
                &&& *final(allocer) == *old(allocer)
            }
            &&& e & 1 == 0 ==> {
                &&& pointer.0 == f | (flags.bits | 1)
                &&& !old(allocer).live().contains_key(f)
                &&& final(allocer).live().dom() == old(allocer).live().dom().insert(f)
                &&& final(allocer).returned() == old(allocer).returned()
                &&& final(mem)@.dom() == old(mem)@.dom().insert(f).insert(t)
                &&& final(mem)@[t].entries@[i].0 & 0x800f_ffff_ffff_ffff == if i == index {
                    pointer.0 & 0x800f_ffff_ffff_ffff
                } else {
                    old(mem)@[t].entries@[i].0 & 0x800f_ffff_ffff_ffff
                }
                &&& t != f ==> final(mem)@[f].entries@[i].0 & 0x800f_ffff_ffff_ffff == 0
                &&& t != f ==> (final(mem)@[f].entries@[0].0 as int / 0x10_0000_0000_0000) % 2048
                    == 0
            }
        }),
{
    let t = table.0 & 0x000f_ffff_ffff_f000;
    let e = old(mem)@[t].entries@[index as int].0;
    let f = pointer.0 & 0x000f_ffff_ffff_f000;
    assert(walk::entry(old(mem)@, t, index as int) == e);
    if e & 1 == 0 {
        assert(final(allocer).live().dom() =~= old(allocer).live().dom().insert(f));
        assert(final(mem)@.dom() =~= old(mem)@.dom().insert(f).insert(t));
        page_table::lemma_set_counts(old(mem)@[t], final(mem)@[t], index as int, pointer);
        assert(i != index ==> page_table::strip(final(mem)@[t].entries@[i].0)
            == page_table::strip(old(mem)@[t].entries@[i].0));
        let blank = final(mem)@[f];
        walk::lemma_blank_unused(blank, 0, i);
        page_table::lemma_with_count(0, 0);
        lemma_nothing();
    }
}

/// The entry of a table that is got is the one at the index.
pub proof fn lemma_got_entry(table: PageTable, index: usize, pointer: PageTablePointer)
    requires
        call_ensures(PageTable::get, (&table, index), pointer),
    ensures
        pointer == table.entries@[index as int],
{
}

/// An entry that is in use is not removed. One that is not in use is taken off the count, and
/// the table goes back where it counts nothing then, which is so where it counted one.
pub proof fn lemma_removed_entry<T: FrameAllocator>(
    table: &mut PageTable,
    index: usize,
    allocer: &mut T,
    dropped: bool,
)
    requires
        index < 512,
        call_ensures(PageTable::remove::<T>, (table, index, allocer), dropped),
    ensures
        ({
            let used = old(table).entries@[index as int].0 & 1 != 0;
            let count = (old(table).entries@[0].0 as int / 0x10_0000_0000_0000) % 2048;
            &&& dropped <==> !used && count == 1
            &&& used ==> final(table).entries@ == old(table).entries@
            &&& !used ==> (final(table).entries@[0].0 as int / 0x10_0000_0000_0000) % 2048 == (count
                - 1) % 2048
            &&& !dropped ==> *final(allocer) == *old(allocer)
            &&& dropped ==> {
                &&& final(allocer).live() == old(allocer).live().remove(old(table).frame.phys)
                &&& final(allocer).returned() == old(allocer).returned().push(
                    Allocation {
                        virt: old(table).frame.virt,
                        phys: old(table).frame.phys,
                        len: 4096,
                    },
                )
            }
        }),
{
    if old(table).entries@[index as int].0 & 1 == 0 {
        page_table::lemma_clear_counts(*old(table), *final(table), index as int);
    }
}

/// The table behind a present entry can be changed in place, and the others stay.
pub proof fn lemma_changed_table(
    entry: PageTablePointer,
    mem: &mut PageMemory,
    table: Option<&mut PageTable>,
)
    requires
        call_ensures(PageTablePointer::as_mut, (&entry, mem), table),
    ensures
        table is Some <==> entry.0 & 1 != 0,
        table is None ==> final(mem)@ == old(mem)@,
        table matches Some(t) ==> {
            &&& *t == old(mem)@[entry.0 & 0x000f_ffff_ffff_f000]
            &&& final(mem)@ == old(mem)@.insert(entry.0 & 0x000f_ffff_ffff_f000, *final(t))
        },
{
}

proof fn lemma_still_in_use(live: Map<u64, Allocation>, frames: Seq<Allocation>, t: u64)
    ensures
        walk::give_back(live, frames).contains_key(t) <==> live.contains_key(t) && !exists|k: int|
            0 <= k < frames.len() && (#[trigger] frames[k]).phys == t,
        walk::give_back(live, frames).contains_key(t) ==> walk::give_back(live, frames)[t]
            == live[t],
    decreases frames.len(),
{
    if frames.len() > 0 {
        let front = frames.drop_last();
        lemma_still_in_use(live, front, t);
        if exists|k: int| 0 <= k < front.len() && (#[trigger] front[k]).phys == t {
            let k = choose|k: int| 0 <= k < front.len() && (#[trigger] front[k]).phys == t;
            assert(frames[k].phys == t);
        }
        if exists|k: int| 0 <= k < frames.len() && (#[trigger] frames[k]).phys == t {
            let k = choose|k: int| 0 <= k < frames.len() && (#[trigger] frames[k]).phys == t;
            if k < front.len() {
                assert(front[k].phys == t);
            }
        }
        assert(frames[frames.len() - 1] == frames.last());
    }
}

/// The frames of the tables that are given back with an address space are no longer in use,
/// and all other frames still are. The root table goes last.
pub proof fn lemma_frames_after_release<T: FrameAllocator>(
    mapper: &mut VirtMapper<T>,
    mem: Vec<Allocation>,
    t: u64,
)
    requires
        old(mapper).wf(),
        call_ensures(VirtMapper::<T>::release, (mapper,), mem),
    ensures
        ({
            let before = old(mapper).frame_allocator();
            let after = final(mapper).frame_allocator();
            &&& after.live().contains_key(t) <==> before.live().contains_key(t) && !exists|
                q: Seq<int>,
            |
                q.len() <= 3 && (forall|k: int| 0 <= k < q.len() ==> 0 <= #[trigger] q[k] < 512)
                    && #[trigger] walk::table_at(
                    old(mapper).tables(),
                    old(mapper).root(),
                    q,
                ) == Some(t)
            &&& after.returned().len() > before.returned().len()
            &&& after.returned().last().phys == old(mapper).root()
        }),
{
    let frames = walk::frames(old(mapper).tables(), old(mapper).root(), 3);
    lemma_released_tables(mapper, mem, t);
    lemma_still_in_use(old(mapper).frame_allocator().live(), frames, t);
    let before = old(mapper).frame_allocator().returned();
    let after = final(mapper).frame_allocator().returned();
    let given = after.skip(before.len() as int);
    assert(given =~= frames);
    assert(after.last() == frames.last());
    let root = old(mapper).root();
    assert(walk::table_at(old(mapper).tables(), root, Seq::empty()) == Some(root));
    assert(old(mapper).tables()[root].frame.phys == root);
}

/// The frames of the tables that are dropped where a range is unmapped are no longer in use,
/// and all other frames still are.
pub proof fn lemma_frames_after_unmap<T: FrameAllocator>(
    mapper: &mut VirtMapper<T>,
    range: VirtRange,
    flush: &mut Vec<u64>,
    phys_zones: VirtLayout,
    t: u64,
)
    requires
        call_ensures(
            VirtMapper::<T>::unmap,
            (mapper, range, flush),
            Ok::<VirtLayout, MapError>(phys_zones),
        ),
    ensures
        final(mapper).frame_allocator().live().contains_key(t) <==> old(
            mapper,
        ).frame_allocator().live().contains_key(t) && !(old(mapper).tables().contains_key(t)
            && !final(mapper).tables().contains_key(t)),
        final(mapper).tables().contains_key(t) ==> old(mapper).tables().contains_key(t)
            && final(mapper).tables()[t].frame == old(mapper).tables()[t].frame,
{
    if final(mapper).tables().contains_key(t) {
        assert(final(mapper).tables().dom().contains(t));
        assert(old(mapper).tables().dom().contains(t));
        let table = final(mapper).tables()[t];
    }
}

/// The frames of the tables that are hung up where a layout is mapped are in use then, and
/// those that were in use still are. Nothing is given back.
pub proof fn lemma_frames_after_map<T: FrameAllocator>(
    mapper: &mut VirtMapper<T>,
    phys_zones: VirtLayout,
    flush: &mut Vec<u64>,
    range: VirtRange,
    t: u64,
)
    requires
        call_ensures(
            VirtMapper::<T>::map,
            (mapper, phys_zones, flush),
            Ok::<VirtRange, MapError>(range),
        ),
    ensures
        final(mapper).frame_allocator().live().contains_key(t) <==> old(
            mapper,
        ).frame_allocator().live().contains_key(t) || final(mapper).tables().contains_key(t),
        final(mapper).frame_allocator().returned() == old(mapper).frame_allocator().returned(),
        old(mapper).tables().contains_key(t) ==> final(mapper).tables().contains_key(t)
            && final(mapper).tables()[t].frame == old(mapper).tables()[t].frame,
{
    if old(mapper).tables().contains_key(t) {
        assert(old(mapper).tables().dom().contains(t));
        assert(final(mapper).tables().dom().contains(t));
        let table = final(mapper).tables()[t];
    }
}

/// The page that holds an address, by its size.
proof fn lemma_page_around(a: u64, page: PageSize) -> (frame: VirtFrame)
    ensures
        frame.page() == page,
        frame.start() % frame.page().bytes() == 0,
        frame.start() <= a < frame.end(),
{
    let size = page.bytes();
    let start = (a - a % size) as u64;
    assert(start % size == 0 && start <= a < start + size) by {
        match page {
            PageSize::K4 => {
                assert((a - a % 0x1000) % 0x1000 == 0);
            },
            PageSize::M2 => {
                assert((a - a % 0x20_0000) % 0x20_0000 == 0);
            },
            PageSize::G1 => {
                assert((a - a % 0x4000_0000) % 0x4000_0000 == 0);
            },
        }
    }
    VirtFrame::spec_new(start, page)
}

proof fn lemma_steps_are_path(a: u64, nums: [usize; 4], depth: usize)
    requires
        2 <= depth <= 4,
        call_ensures(indices, (a,), nums),
    ensures
        Seq::new(depth as nat, |k: int| nums@[k] as int) == walk::path_of(a, depth as int),
{
    assert forall|k: int| 0 <= k < depth implies nums@[k] as int == #[trigger] walk::index_of(
        a,
        k,
    ) by {
        assert(nums@[k] == walk::index_of(a, k));
    }
    assert(Seq::new(depth as nat, |k: int| nums@[k] as int) =~= walk::path_of(a, depth as int));
}

/// Once a page is mapped at the end of the steps of an address, the address leads to the frame
/// that the entry holds, with the flags that the entry has: into a page of 1 GiB after two
/// steps, of 2 MiB after three and of 4 KiB after four.
pub proof fn lemma_mapped_page<T: FrameAllocator>(
    mem: &mut PageMemory,
    root: PageTablePointer,
    a: u64,
    nums: [usize; 4],
    depth: usize,
    leaf: PageTablePointer,
    allocer: &mut T,
)
    requires
        2 <= depth <= 4,
        call_ensures(indices, (a,), nums),
        call_ensures(walk::map_page::<T>, (mem, root, nums, depth, leaf, allocer), ()),
    ensures
        ({
            let pages = walk::pages(final(mem)@, root.0 & 0x000f_ffff_ffff_f000);
            let size: int = if depth == 2 {
                0x4000_0000
            } else if depth == 3 {
                0x20_0000
            } else {
                0x1000
            };
            &&& translate::translate(pages, a) == Some(
                (leaf.0 & 0x000f_ffff_ffff_f000) + a as int % size,
            )
            &&& translate::access(pages, a) == Some(leaf.0 & 0x8000_0000_0000_01ff)
        }),
{
    let page = if depth == 2 {
        PageSize::G1
    } else if depth == 3 {
        PageSize::M2
    } else {
        PageSize::K4
    };
    let r = page_table::entry_addr(root.0);
    let frame = lemma_page_around(a, page);
    translate::lemma_path_in_frame(frame, a);
    lemma_steps_are_path(a, nums, depth);
    let path = walk::path_of(a, depth as int);
    assert(walk::pages(final(mem)@, r).contains_key(path));
    translate::lemma_page_of(final(mem)@, r, frame, a);
    lemma_entry_numbers(leaf.0);
}

/// Once a page is unmapped from the end of the steps of an address, the address leads nowhere,
/// and every other page is mapped as before.
pub proof fn lemma_unmapped_page<T: FrameAllocator>(
    mem: &mut PageMemory,
    root: PageTablePointer,
    a: u64,
    nums: [usize; 4],
    depth: usize,
    allocer: &mut T,
)
    requires
        2 <= depth <= 4,
        call_ensures(indices, (a,), nums),
        call_ensures(walk::unmap_page::<T>, (mem, root, nums, depth, allocer), ()),
        walk::is_tree(old(mem)@, root.0 & 0x000f_ffff_ffff_f000),
        walk::is_page(
            old(mem)@,
            root.0 & 0x000f_ffff_ffff_f000,
            walk::path_of(a, depth as int),
        ),
    ensures
        ({
            let r = root.0 & 0x000f_ffff_ffff_f000;
            &&& translate::translate(walk::pages(final(mem)@, r), a) is None
            &&& walk::pages(final(mem)@, r) == walk::pages(old(mem)@, r).remove(
                walk::path_of(a, depth as int),
            )
        }),
{
    let page = if depth == 2 {
        PageSize::G1
    } else if depth == 3 {
        PageSize::M2
    } else {
        PageSize::K4
    };
    let r = page_table::entry_addr(root.0);
    let path = walk::path_of(a, depth as int);
    let before = walk::pages(old(mem)@, r);
    let after = walk::pages(final(mem)@, r);
    let frame = lemma_page_around(a, page);
    translate::lemma_path_in_frame(frame, a);
    lemma_steps_are_path(a, nums, depth);
    assert(before.contains_key(path));
    translate::lemma_page_of(old(mem)@, r, frame, a);
    assert(after == before.remove(path));
    assert forall|d: int| 2 <= d <= 4 implies !after.contains_key(
        #[trigger] walk::path_of(a, d),
    ) by {
        let other = walk::path_of(a, d);
        if d != depth && before.contains_key(other) {
            let size = if d == 2 {
                PageSize::G1
            } else if d == 3 {
                PageSize::M2
            } else {
                PageSize::K4
            };
            let coarser = lemma_page_around(a, size);
            translate::lemma_path_in_frame(coarser, a);
            translate::lemma_page_of(old(mem)@, r, coarser, a);
        }
    }
    assert(translate::page_of(after, a) is None);
}

/// The walk to the end of some steps is free where no present entry on the way stands for a
/// page, and the entry at the end is not present. An address with these steps leads nowhere
/// then.
pub proof fn lemma_free_walk(
    mem: &PageMemory,
    root: PageTablePointer,
    a: u64,
    nums: [usize; 4],
    depth: usize,
    free: bool,
)
    requires
        2 <= depth <= 4,
        call_ensures(indices, (a,), nums),
        call_ensures(walk::is_path_free, (mem, root, nums, depth), free),
    ensures
        ({
            let r = root.0 & 0x000f_ffff_ffff_f000;
            &&& free ==> translate::translate(walk::pages(mem@, r), a) is None
            &&& !free ==> exists|k: int|
                1 <= k <= depth && ((#[trigger] walk::lookup(mem@, r, walk::path_of(a, k))) matches Some(
                    e,
                ) && e & 1 != 0 && (k < depth ==> e & 0x80 != 0))
        }),
{
    let r = page_table::entry_addr(root.0);
    let path = walk::path_of(a, depth as int);
    lemma_steps_are_path(a, nums, depth);
    if free {
        translate::lemma_free_path_leads_nowhere(mem@, r, a, depth as int);
    } else {
        let k = choose|k: int|
            1 <= k <= path.len() && !(#[trigger] walk::lookup(mem@, r, path.take(k)) matches Some(e)
                ==> if k < path.len() {
                !page_table::entry_present(e) || !page_table::entry_huge(e)
            } else {
                !page_table::entry_present(e)
            });
        assert(path.take(k) =~= walk::path_of(a, k));
        let e = walk::lookup(mem@, r, walk::path_of(a, k))->0;
        lemma_entry_numbers(e);
        assert(1 <= k <= depth);
    }
}

/// Giving up a table gives every table back that a walk of so many steps from it leads to,
/// each once, as one page with the addresses of its frame, and nothing else.
pub proof fn lemma_given_up_tables<T: FrameAllocator>(
    mem: &PageMemory,
    table: PageTablePointer,
    allocer: &mut T,
    level: usize,
    all: &mut T,
    t: u64,
)
    requires
        walk::is_tree_to(mem@, table.0 & 0x000f_ffff_ffff_f000, level as int),
        walk::is_tree_to(mem@, table.0 & 0x000f_ffff_ffff_f000, 3),
        walk::own_frames(mem@),
        call_ensures(PageTable::dealloc_recurse::<T>, (mem, table, allocer, level), ()),
        call_ensures(PageTable::dealloc_all::<T>, (mem, table, all), ()),
    ensures
        ({
            let r = table.0 & 0x000f_ffff_ffff_f000;
            let given = final(allocer).returned().skip(old(allocer).returned().len() as int);
            let given_all = final(all).returned().skip(old(all).returned().len() as int);
            &&& final(allocer).returned() == old(allocer).returned() + given
            &&& final(all).returned() == old(all).returned() + given_all
            &&& forall|k: int, l: int|
                0 <= k < l < given.len() ==> (#[trigger] given[k]).phys != (
                #[trigger] given[l]).phys
            &&& forall|k: int, l: int|
                0 <= k < l < given_all.len() ==> (#[trigger] given_all[k]).phys != (
                #[trigger] given_all[l]).phys
            &&& forall|k: int|
                0 <= k < given.len() ==> (#[trigger] given[k]) == (Allocation {
                    virt: mem@[given[k].phys].frame.virt,
                    phys: mem@[given[k].phys].frame.phys,
                    len: 4096,
                })
            &&& forall|k: int|
                0 <= k < given_all.len() ==> (#[trigger] given_all[k]) == (Allocation {
                    virt: mem@[given_all[k].phys].frame.virt,
                    phys: mem@[given_all[k].phys].frame.phys,
                    len: 4096,
                })
            &&& (exists|k: int| 0 <= k < given.len() && (#[trigger] given[k]).phys == t) <==> (
            exists|q: Seq<int>|
                q.len() <= level && (forall|k: int|
                    0 <= k < q.len() ==> 0 <= #[trigger] q[k] < 512) && #[trigger] walk::table_at(
                    mem@,
                    r,
                    q,
                ) == Some(t))
            &&& (exists|k: int| 0 <= k < given_all.len() && (#[trigger] given_all[k]).phys == t)
                <==> (exists|q: Seq<int>|
                q.len() <= 3 && (forall|k: int| 0 <= k < q.len() ==> 0 <= #[trigger] q[k] < 512)
                    && #[trigger] walk::table_at(mem@, r, q) == Some(t))
        }),
{
    let r = page_table::entry_addr(table.0);
    lemma_given_up(mem@, r, level as nat, old(allocer).returned(), final(allocer).returned(), t);
    lemma_given_up(mem@, r, 3, old(all).returned(), final(all).returned(), t);
}

proof fn lemma_given_up(
    mem: Map<u64, PageTable>,
    root: u64,
    level: nat,
    before: Seq<Allocation>,
    after: Seq<Allocation>,
    t: u64,
)
    requires
        walk::is_tree_to(mem, root, level as int),
        walk::own_frames(mem),
        after == before + walk::frames(mem, root, level),
    ensures
        ({
            let given = after.skip(before.len() as int);
            &&& after == before + given
            &&& forall|k: int, l: int|
                0 <= k < l < given.len() ==> (#[trigger] given[k]).phys != (
                #[trigger] given[l]).phys
            &&& forall|k: int|
                0 <= k < given.len() ==> (#[trigger] given[k]) == (Allocation {
                    virt: mem[given[k].phys].frame.virt,
                    phys: mem[given[k].phys].frame.phys,
                    len: 4096,
                })
            &&& (exists|k: int| 0 <= k < given.len() && (#[trigger] given[k]).phys == t) <==> (
            exists|q: Seq<int>|
                q.len() <= level && (forall|k: int|
                    0 <= k < q.len() ==> 0 <= #[trigger] q[k] < 512) && #[trigger] walk::table_at(
                    mem,
                    root,
                    q,
                ) == Some(t))
        }),
{
    let frames = walk::frames(mem, root, level);
    let given = after.skip(before.len() as int);
    assert(given =~= frames);
    walk::lemma_frames_once(mem, root, level);
    if exists|k: int| 0 <= k < given.len() && (#[trigger] given[k]).phys == t {
        let k = choose|k: int| 0 <= k < given.len() && (#[trigger] given[k]).phys == t;
        assert(frames[k].phys == t);
        assert(walk::is_reached(mem, root, level, t));
    }
    if exists|q: Seq<int>|
        q.len() <= level && (forall|k: int| 0 <= k < q.len() ==> 0 <= #[trigger] q[k] < 512)
            && #[trigger] walk::table_at(mem, root, q) == Some(t) {
        let q = choose|q: Seq<int>|
            q.len() <= level && (forall|k: int| 0 <= k < q.len() ==> 0 <= #[trigger] q[k] < 512)
                && #[trigger] walk::table_at(mem, root, q) == Some(t);
        assert(walk::valid_path(q));
        assert(walk::is_reached(mem, root, level, t));
        let k = choose|k: int| 0 <= k < frames.len() && (#[trigger] frames[k]).phys == t;
        assert(given[k].phys == t);
    }
}

/// The frames below an entry stand together among those below all entries.
proof fn lemma_frames_of_child(
    mem: Map<u64, PageTable>,
    table: u64,
    level: nat,
    n: nat,
    j: int,
) -> (o: int)
    requires
        level > 0,
        0 <= j < n,
        walk::child(mem, table, j) is Some,
    ensures
        ({
            let below = walk::frames_below(mem, table, level, n);
            let inner = walk::frames(mem, walk::child(mem, table, j)->0, (level - 1) as nat);
            &&& 0 <= o
            &&& o + inner.len() <= below.len()
            &&& forall|k: int| 0 <= k < inner.len() ==> below[o + k] == #[trigger] inner[k]
        }),
    decreases n,
{
    let front = walk::frames_below(mem, table, level, (n - 1) as nat);
    if j == n - 1 {
        front.len() as int
    } else {
        lemma_frames_of_child(mem, table, level, (n - 1) as nat, j)
    }
}

proof fn lemma_walk_from_child(mem: Map<u64, PageTable>, table: u64, j: int, q: Seq<int>)
    ensures
        walk::table_at(mem, table, seq![j] + q) == match walk::child(mem, table, j) {
            Some(c) => walk::table_at(mem, c, q),
            None => None,
        },
    decreases q.len(),
{
    let path = seq![j] + q;
    reveal_with_fuel(walk::table_at, 2);
    if q.len() == 0 {
        assert(path.drop_last() =~= Seq::empty());
    } else {
        assert(path.drop_last() =~= seq![j] + q.drop_last());
        lemma_walk_from_child(mem, table, j, q.drop_last());
    }
}

/// A table that is reached from another goes back before it.
proof fn lemma_below_goes_first(
    mem: Map<u64, PageTable>,
    table: u64,
    level: nat,
    q: Seq<int>,
    i: int,
) -> (at: (int, int))
    requires
        q.len() < level,
        walk::valid_path(q),
        0 <= i < 512,
        walk::table_at(mem, table, q) is Some,
        walk::table_at(mem, table, q.push(i)) is Some,
        walk::own_frames(mem),
        mem.contains_key(walk::table_at(mem, table, q)->0),
        mem.contains_key(walk::table_at(mem, table, q.push(i))->0),
    ensures
        ({
            let frames = walk::frames(mem, table, level);
            &&& 0 <= at.0 < at.1 < frames.len()
            &&& frames[at.0].phys == walk::table_at(mem, table, q.push(i))->0
            &&& frames[at.1].phys == walk::table_at(mem, table, q)->0
        }),
    decreases level,
{
    let frames = walk::frames(mem, table, level);
    let below = walk::frames_below(mem, table, level, 512);
    assert(frames == below.push(mem[table].page_frame()));
    let first = if q.len() == 0 { i } else { q[0] };
    let rest = q.skip(1);
    if q.len() == 0 {
        assert(q =~= Seq::empty());
        assert(q.push(i) =~= seq![i] + Seq::<int>::empty());
        lemma_walk_from_child(mem, table, i, Seq::empty());
    } else {
        assert(q =~= seq![first] + rest);
        assert(q.push(i) =~= seq![first] + rest.push(i));
        lemma_walk_from_child(mem, table, first, rest);
        lemma_walk_from_child(mem, table, first, rest.push(i));
    }
    let c = walk::child(mem, table, first)->0;
    let inner = walk::frames(mem, c, (level - 1) as nat);
    let o = lemma_frames_of_child(mem, table, level, 512, first);
    if q.len() == 0 {
        let last = inner.len() - 1;
        assert(inner[last] == mem[c].page_frame());
        assert(below[o + last] == inner[last]);
        assert(mem[c].frame.phys == c);
        assert(mem[table].frame.phys == table);
        (o + last, below.len() as int)
    } else {
        assert forall|k: int| 0 <= k < rest.len() implies 0 <= #[trigger] rest[k] < 512 by {
            assert(rest[k] == q[k + 1]);
        }
        let at = lemma_below_goes_first(mem, c, (level - 1) as nat, rest, i);
        assert(below[o + at.0] == inner[at.0] && below[o + at.1] == inner[at.1]);
        (o + at.0, o + at.1)
    }
}

/// Where an address space is released, each table goes back before the table that refers to
/// it.
pub proof fn lemma_tables_below_go_first<T: FrameAllocator>(
    mapper: &mut VirtMapper<T>,
    mem: Vec<Allocation>,
    q: Seq<int>,
    i: int,
    t: u64,
    c: u64,
)
    requires
        old(mapper).wf(),
        call_ensures(VirtMapper::<T>::release, (mapper,), mem),
        q.len() < 3,
        forall|k: int| 0 <= k < q.len() ==> 0 <= #[trigger] q[k] < 512,
        0 <= i < 512,
        walk::table_at(old(mapper).tables(), old(mapper).root(), q) == Some(t),
        walk::table_at(old(mapper).tables(), old(mapper).root(), q.push(i)) == Some(c),
    ensures
        ({
            let before = old(mapper).frame_allocator().returned();
            let after = final(mapper).frame_allocator().returned();
            exists|k: int, l: int|
                before.len() <= k < l < after.len() && (#[trigger] after[k]).phys == c && (
                #[trigger] after[l]).phys == t
        }),
{
    let tables = old(mapper).tables();
    let root = old(mapper).root();
    let before = old(mapper).frame_allocator().returned();
    let after = final(mapper).frame_allocator().returned();
    let frames = walk::frames(tables, root, 3);
    assert(walk::valid_path(q));
    assert(walk::valid_path(q.push(i)));
    let at = lemma_below_goes_first(tables, root, 3, q, i);
    assert(after == before + frames);
    assert(after[before.len() + at.0] == frames[at.0]);
    assert(after[before.len() + at.1] == frames[at.1]);
}

} // verus!
