//! The tree that page tables form, and the walk through it.
//!
//! A path is the sequence of indices that a walk follows from the root table.
//! The walk to a table takes at most three of them, the walk to an entry at most
//! four.
use vstd::prelude::*;
use crate::mem::addr::{get_bits, Allocation};
use crate::mem::flags::PageTableFlags;
use crate::mem::page_table;
use crate::mem::page_table::{FrameAllocator, PageMemory, PageTable, PageTablePointer, ENTRIES};

verus! {

/// The entry `index` of the table at `table`.
pub open spec fn entry(mem: Map<u64, PageTable>, table: u64, index: int) -> u64 {
    mem[table].entries@[index].0
}

/// The table that entry `index` of the table at `table` refers to.
pub open spec fn child(mem: Map<u64, PageTable>, table: u64, index: int) -> Option<u64> {
    let e = entry(mem, table, index);
    if mem.contains_key(table) && page_table::entry_present(e) && !page_table::entry_huge(e) {
        Some(page_table::entry_addr(e))
    } else {
        None
    }
}

/// Every step of the path is the index of an entry.
pub open spec fn valid_path(path: Seq<int>) -> bool {
    forall|k: int| 0 <= k < path.len() ==> 0 <= #[trigger] path[k] < ENTRIES
}

/// The table that a walk along `path` leads to.
pub open spec fn table_at(mem: Map<u64, PageTable>, root: u64, path: Seq<int>) -> Option<u64>
    decreases path.len(),
{
    if path.len() == 0 {
        Some(root)
    } else {
        match table_at(mem, root, path.drop_last()) {
            Some(table) => child(mem, table, path.last()),
            None => None,
        }
    }
}

/// The entry that a walk along `path` ends at, as the processor reads it.
pub open spec fn lookup(mem: Map<u64, PageTable>, root: u64, path: Seq<int>) -> Option<u64> {
    match table_at(mem, root, path.drop_last()) {
        Some(table) => Some(page_table::strip(entry(mem, table, path.last()))),
        None => None,
    }
}

/// A path to a table.
pub open spec fn table_path(path: Seq<int>) -> bool {
    valid_path(path) && path.len() <= 3
}

/// A path to an entry.
pub open spec fn entry_path(path: Seq<int>) -> bool {
    valid_path(path) && 1 <= path.len() <= 4
}

/// The tables form a tree: every table that can be reached is there, and there is
/// one way to reach it.
pub open spec fn is_tree(mem: Map<u64, PageTable>, root: u64) -> bool {
    is_tree_to(mem, root, 3)
}

/// The tables that can be reached in `depth` steps form a tree.
pub open spec fn is_tree_to(mem: Map<u64, PageTable>, root: u64, depth: int) -> bool {
    &&& forall|p: Seq<int>|
        valid_path(p) && p.len() <= depth && (#[trigger] table_at(mem, root, p)) is Some
            ==> mem.contains_key(table_at(mem, root, p)->0)
    &&& forall|p: Seq<int>, q: Seq<int>|
        valid_path(p) && valid_path(q) && p.len() <= depth && q.len() <= depth && (
        #[trigger] table_at(mem, root, p)) is Some && table_at(mem, root, p) == #[trigger] table_at(
            mem,
            root,
            q,
        ) ==> p == q
}

/// Every table lies in the frame that it knows of.
pub open spec fn own_frames(mem: Map<u64, PageTable>) -> bool {
    forall|t: u64| mem.contains_key(t) ==> (#[trigger] mem[t]).frame.phys == t
}

/// The tables that are there before and after lie in the same frames.
pub open spec fn keeps_frames(mem: Map<u64, PageTable>, next: Map<u64, PageTable>) -> bool {
    forall|t: u64|
        mem.contains_key(t) && next.contains_key(t) ==> (#[trigger] next[t]).frame == mem[t].frame
}

/// Whether a path leaves the root through another entry than the one at `index`.
pub open spec fn outside(path: Seq<int>, index: int) -> bool {
    path.len() > 0 && path[0] != index
}

/// Whether a path ends at an entry that is in use.
pub open spec fn in_use(
    links: Map<Seq<int>, u64>,
    pages: Map<Seq<int>, u64>,
    path: Seq<int>,
) -> bool {
    links.contains_key(path) || pages.contains_key(path)
}

/// The tables that are reached through other entries of the root than the one at `index`
/// have an entry in use.
pub open spec fn leads_on(
    links: Map<Seq<int>, u64>,
    pages: Map<Seq<int>, u64>,
    index: int,
) -> bool {
    forall|q: Seq<int>| #[trigger]
        links.contains_key(q) && outside(q, index) ==> exists|i: int| #[trigger]
            in_use(links, pages, q.push(i))
}

/// Whether the entry at the end of the first `n` steps of `path` is the only one in use in
/// its table.
pub open spec fn only_used(
    links: Map<Seq<int>, u64>,
    pages: Map<Seq<int>, u64>,
    path: Seq<int>,
    n: int,
) -> bool {
    forall|i: int| #[trigger]
        in_use(links, pages, path.take(n - 1).push(i)) ==> i == path[n - 1]
}

/// How many steps of `path` are left where a page at its end goes: the entry at the end of
/// these steps goes too. A table whose only entry in use goes is dropped, and with it the
/// entry that refers to it. The root table stays.
pub open spec fn cut_level(
    links: Map<Seq<int>, u64>,
    pages: Map<Seq<int>, u64>,
    path: Seq<int>,
    n: int,
) -> int
    decreases n,
{
    if n >= 2 && only_used(links, pages, path, n) {
        cut_level(links, pages, path, n - 1)
    } else {
        n
    }
}

/// The links after a page was unmapped.
pub open spec fn without_page(
    links: Map<Seq<int>, u64>,
    pages: Map<Seq<int>, u64>,
    path: Seq<int>,
) -> Map<Seq<int>, u64> {
    links.remove_keys(cut_links(path, cut_level(links, pages, path, path.len() as int)))
}

/// Whether a page can be mapped at the end of `path`: no page lies on the way, and the entry
/// at the end is not in use.
pub open spec fn is_free(
    links: Map<Seq<int>, u64>,
    pages: Map<Seq<int>, u64>,
    path: Seq<int>,
) -> bool {
    &&& !links.contains_key(path)
    &&& forall|k: int| 1 <= k <= path.len() ==> !pages.contains_key(#[trigger] path.take(k))
}

/// The page tables in memory, and what their allocator has handed out and taken back.
pub struct TableState {
    pub tables: Map<u64, PageTable>,
    pub live: Map<u64, Allocation>,
    pub returned: Seq<Allocation>,
}

/// An entry that was not in use was set, and counted.
pub open spec fn gains_entry(before: PageTable, after: PageTable) -> bool {
    exists|index: int, ptr: PageTablePointer|
        0 <= index < ENTRIES && !page_table::entry_present(before.entries@[index].0)
            && page_table::entry_present(ptr.0) && #[trigger] after.is_set(before, index, ptr)
}

/// A table in the frame at `t` that was made for one entry.
pub open spec fn has_first_entry(t: u64, table: PageTable) -> bool {
    &&& table.frame.phys == t
    &&& exists|blank: PageTable| blank.is_blank(0) && #[trigger] gains_entry(blank, table)
}

/// What mapping a page does. The last table on the way that was there gets an entry, all
/// others stay as they are, and each new table has one entry.
pub open spec fn maps_page(
    before: TableState,
    after: TableState,
    root: u64,
    path: Seq<int>,
    leaf: u64,
) -> bool {
    &&& is_tree(after.tables, root)
    &&& pages(after.tables, root) == pages(before.tables, root).insert(
        path,
        page_table::strip(leaf),
    )
    &&& links(after.tables, root) == with_parents(
        links(before.tables, root),
        path,
        path.len() - 1,
    )
    &&& before.tables.dom().subset_of(after.tables.dom())
    &&& forall|t: u64|
        before.tables.contains_key(t) ==> (#[trigger] after.tables[t]) == before.tables[t]
            || gains_entry(before.tables[t], after.tables[t])
    &&& forall|t: u64|
        after.tables.contains_key(t) && !before.tables.contains_key(t) ==> has_first_entry(
            t,
            #[trigger] after.tables[t],
        )
    &&& after.live == before.live.union_prefer_right(page_table::frames_of(after.tables))
    &&& after.returned == before.returned
}

/// What unmapping a page does. Tables that have no other entry in use are dropped, and their
/// frames are given back; the last table on the way that stays loses an entry.
pub open spec fn unmaps_page(
    before: TableState,
    after: TableState,
    root: u64,
    path: Seq<int>,
) -> bool {
    let n = cut_level(
        links(before.tables, root),
        pages(before.tables, root),
        path,
        path.len() as int,
    );
    let dropped = cut_tables(before.tables, root, path, n);
    &&& is_tree(after.tables, root)
    &&& pages(after.tables, root) == pages(before.tables, root).remove(path)
    &&& links(after.tables, root) == without_page(
        links(before.tables, root),
        pages(before.tables, root),
        path,
    )
    &&& dropped.subset_of(before.tables.dom())
    &&& after.tables.dom() == before.tables.dom().difference(dropped)
    &&& after.tables.contains_key(root)
    &&& forall|t: u64|
        after.tables.contains_key(t) ==> if t == table_of(before.tables, root, path, n) {
            (#[trigger] after.tables[t]).is_cleared(before.tables[t], path[n - 1])
        } else {
            after.tables[t] == before.tables[t]
        }
    &&& after.live == before.live.remove_keys(dropped)
    &&& after.returned == before.returned + cut_frames(before.tables, root, path, n)
    &&& gave_back(before.tables, after.tables, before.returned, after.returned)
}

/// Whether a walk along `path` ends at a page.
pub open spec fn is_page(mem: Map<u64, PageTable>, root: u64, path: Seq<int>) -> bool {
    &&& entry_path(path)
    &&& lookup(mem, root, path) is Some
    &&& page_table::entry_present(lookup(mem, root, path)->0)
    &&& path.len() == 4 || page_table::entry_huge(lookup(mem, root, path)->0)
}

/// The pages that the tables map: the entry of each, by the path to it.
pub open spec fn pages(mem: Map<u64, PageTable>, root: u64) -> Map<Seq<int>, u64> {
    Map::new(
        |path: Seq<int>| is_page(mem, root, path),
        |path: Seq<int>| lookup(mem, root, path)->0,
    )
}

/// Whether a walk along `path` leads on to a table.
pub open spec fn is_link(mem: Map<u64, PageTable>, root: u64, path: Seq<int>) -> bool {
    &&& entry_path(path)
    &&& path.len() < 4
    &&& lookup(mem, root, path) is Some
    &&& page_table::entry_present(lookup(mem, root, path)->0)
    &&& !page_table::entry_huge(lookup(mem, root, path)->0)
}

/// The entries that refer to tables: the flags of each, by the path to it.
pub open spec fn links(mem: Map<u64, PageTable>, root: u64) -> Map<Seq<int>, u64> {
    Map::new(
        |path: Seq<int>| is_link(mem, root, path),
        |path: Seq<int>| lookup(mem, root, path)->0 & PageTableFlags::ALL,
    )
}

/// The links after a walk along the first `n` steps of `path` that hung up tables
/// where there were none.
pub open spec fn with_parents(links: Map<Seq<int>, u64>, path: Seq<int>, n: int) -> Map<
    Seq<int>,
    u64,
>
    decreases n,
{
    if n <= 0 {
        links
    } else {
        let above = with_parents(links, path, n - 1);
        if above.contains_key(path.take(n)) {
            above
        } else {
            above.insert(path.take(n), PARENT_FLAGS)
        }
    }
}

/// What writing to one unused entry does to memory: the entry `index` of the table
/// at `table` changes, tables may be added, and the rest reads as before.
pub open spec fn is_write(
    mem: Map<u64, PageTable>,
    next: Map<u64, PageTable>,
    table: u64,
    index: int,
) -> bool {
    &&& 0 <= index < ENTRIES
    &&& !page_table::entry_present(entry(mem, table, index))
    &&& mem.dom().subset_of(next.dom())
    &&& forall|t: u64, i: int|
        mem.contains_key(t) && 0 <= i < ENTRIES && (t != table || i != index)
            ==> page_table::strip(#[trigger] entry(next, t, i)) == page_table::strip(
            entry(mem, t, i),
        )
}

/// The table behind the entry that was written, if it refers to one, is new and
/// has no entry in use.
pub open spec fn is_fresh_child(
    mem: Map<u64, PageTable>,
    next: Map<u64, PageTable>,
    table: u64,
    index: int,
) -> bool {
    child(next, table, index) matches Some(c) ==> {
        &&& !mem.contains_key(c)
        &&& next.contains_key(c)
        &&& forall|i: int|
            0 <= i < ENTRIES ==> !page_table::entry_present(#[trigger] entry(next, c, i))
    }
}

proof fn lemma_same_strip_same_child(
    mem: Map<u64, PageTable>,
    next: Map<u64, PageTable>,
    table: u64,
    index: int,
)
    requires
        mem.contains_key(table),
        next.contains_key(table),
        page_table::strip(entry(next, table, index)) == page_table::strip(
            entry(mem, table, index),
        ),
    ensures
        child(next, table, index) == child(mem, table, index),
{
    page_table::lemma_strip(entry(mem, table, index));
    page_table::lemma_strip(entry(next, table, index));
}

proof fn lemma_push_parts(path: Seq<int>, index: int)
    ensures
        path.push(index).drop_last() == path,
        path.push(index).last() == index,
{
    assert(path.push(index).drop_last() =~= path);
}

proof fn lemma_drop_last_path(path: Seq<int>)
    requires
        valid_path(path),
        path.len() > 0,
    ensures
        valid_path(path.drop_last()),
        0 <= path.last() < ENTRIES,
        path == path.drop_last().push(path.last()),
{
    assert(path =~= path.drop_last().push(path.last()));
    assert forall|k: int| 0 <= k < path.drop_last().len() implies 0 <= #[trigger] path.drop_last()[k]
        < ENTRIES by {
        assert(path.drop_last()[k] == path[k]);
    }
}

proof fn lemma_write_table_at(
    mem: Map<u64, PageTable>,
    next: Map<u64, PageTable>,
    root: u64,
    path: Seq<int>,
    index: int,
    q: Seq<int>,
)
    requires
        is_tree(mem, root),
        table_path(path),
        table_at(mem, root, path) is Some,
        is_write(mem, next, table_at(mem, root, path)->0, index),
        path.len() < 3 ==> is_fresh_child(mem, next, table_at(mem, root, path)->0, index),
        table_path(q),
    ensures
        table_at(next, root, q) == if q == path.push(index) {
            child(next, table_at(mem, root, path)->0, index)
        } else {
            table_at(mem, root, q)
        },
    decreases q.len(),
{
    let t = table_at(mem, root, path)->0;
    lemma_push_parts(path, index);
    assert(mem.contains_key(t));
    if q.len() > 0 {
        let q1 = q.drop_last();
        lemma_drop_last_path(q);
        lemma_write_table_at(mem, next, root, path, index, q1);
        if q1 == path.push(index) {
            assert(path.len() < 3);
            assert(table_at(mem, root, q1) == child(mem, t, index));
            assert(table_at(mem, root, q) is None);
            match child(next, t, index) {
                Some(c) => {
                    assert(!page_table::entry_present(entry(next, c, q.last())));
                },
                None => {},
            }
            assert(table_at(next, root, q) is None);
            assert(q != path.push(index));
        } else if q == path.push(index) {
            assert(q1 == path);
        } else {
            match table_at(mem, root, q1) {
                Some(x) => {
                    assert(mem.contains_key(x));
                    if x == t && q.last() == index {
                        assert(q1 == path);
                        assert(false);
                    }
                    lemma_same_strip_same_child(mem, next, x, q.last());
                },
                None => {},
            }
        }
    } else {
        assert(q != path.push(index));
    }
}

/// A write to an unused entry keeps the tree, and changes where walks lead only
/// behind that entry.
pub proof fn lemma_write(
    mem: Map<u64, PageTable>,
    next: Map<u64, PageTable>,
    root: u64,
    path: Seq<int>,
    index: int,
)
    requires
        is_tree(mem, root),
        table_path(path),
        table_at(mem, root, path) is Some,
        is_write(mem, next, table_at(mem, root, path)->0, index),
        path.len() < 3 ==> is_fresh_child(mem, next, table_at(mem, root, path)->0, index),
    ensures
        is_tree(next, root),
        forall|q: Seq<int>| #[trigger]
            table_path(q) ==> table_at(next, root, q) == if q == path.push(index) {
                child(next, table_at(mem, root, path)->0, index)
            } else {
                table_at(mem, root, q)
            },
        forall|q: Seq<int>| #[trigger]
            entry_path(q) ==> lookup(next, root, q) == if q == path.push(index) {
                Some(page_table::strip(entry(next, table_at(mem, root, path)->0, index)))
            } else if q.drop_last() == path.push(index) && path.len() < 3 {
                match child(next, table_at(mem, root, path)->0, index) {
                    Some(c) => Some(page_table::strip(entry(next, c, q.last()))),
                    None => None,
                }
            } else {
                lookup(mem, root, q)
            },
{
    let t = table_at(mem, root, path)->0;
    lemma_push_parts(path, index);
    assert(mem.contains_key(t));
    assert forall|q: Seq<int>| #[trigger] table_path(q) implies table_at(next, root, q) == if q
        == path.push(index) {
        child(next, t, index)
    } else {
        table_at(mem, root, q)
    } by {
        lemma_write_table_at(mem, next, root, path, index, q);
    }
    assert forall|p: Seq<int>| table_path(p) && (#[trigger] table_at(next, root, p)) is Some implies
        next.contains_key(table_at(next, root, p)->0) by {
        if p != path.push(index) {
            assert(mem.contains_key(table_at(mem, root, p)->0));
        }
    }
    assert forall|p: Seq<int>, q: Seq<int>|
        table_path(p) && table_path(q) && (#[trigger] table_at(next, root, p)) is Some && table_at(
            next,
            root,
            p,
        ) == #[trigger] table_at(next, root, q) implies p == q by {
        if p == path.push(index) {
            if q != p {
                assert(mem.contains_key(table_at(mem, root, q)->0));
            }
        } else if q == path.push(index) {
            assert(mem.contains_key(table_at(mem, root, p)->0));
        } else {
            assert(table_at(mem, root, p) == table_at(mem, root, q));
        }
    }
    assert forall|q: Seq<int>| #[trigger] entry_path(q) implies lookup(next, root, q) == if q
        == path.push(index) {
        Some(page_table::strip(entry(next, t, index)))
    } else if q.drop_last() == path.push(index) && path.len() < 3 {
        match child(next, t, index) {
            Some(c) => Some(page_table::strip(entry(next, c, q.last()))),
            None => None,
        }
    } else {
        lookup(mem, root, q)
    } by {
        let q1 = q.drop_last();
        lemma_drop_last_path(q);
        assert(table_path(q1));
        if q == path.push(index) {
            assert(q1 == path);
            assert(path != path.push(index)) by {
                assert(path.len() != path.push(index).len());
            }
            assert(table_at(next, root, path) == Some(t));
        } else if q1 == path.push(index) {
            assert(path.len() < 3);
        } else {
            match table_at(mem, root, q1) {
                Some(x) => {
                    assert(mem.contains_key(x));
                    if x == t && q.last() == index {
                        assert(q1 == path);
                        assert(false);
                    }
                    assert(page_table::strip(entry(next, x, q.last())) == page_table::strip(
                        entry(mem, x, q.last()),
                    ));
                },
                None => {},
            }
        }
    }
}

/// Whether a page can be mapped at the end of `path`: the walk meets no page, and
/// the entry that it ends at is not in use.
pub open spec fn path_free(mem: Map<u64, PageTable>, root: u64, path: Seq<int>) -> bool {
    forall|k: int|
        1 <= k <= path.len() ==> (#[trigger] lookup(mem, root, path.take(k)) matches Some(e) ==> if k
            < path.len() {
            !page_table::entry_present(e) || !page_table::entry_huge(e)
        } else {
            !page_table::entry_present(e)
        })
}

/// Whether one path leads through the end of the other.
pub open spec fn is_prefix(p: Seq<int>, q: Seq<int>) -> bool {
    p.len() <= q.len() && q.take(p.len() as int) == p
}

/// Neither path leads through the end of the other.
pub open spec fn unrelated(p: Seq<int>, q: Seq<int>) -> bool {
    !is_prefix(p, q) && !is_prefix(q, p)
}

proof fn lemma_take_path(path: Seq<int>, k: int)
    requires
        entry_path(path),
        1 <= k <= path.len(),
    ensures
        entry_path(path.take(k)),
        path.take(k).drop_last() == path.take(k - 1),
        path.take(k).last() == path[k - 1],
{
    assert(path.take(k).drop_last() =~= path.take(k - 1));
    assert forall|j: int| 0 <= j < path.take(k).len() implies 0 <= #[trigger] path.take(k)[j]
        < ENTRIES by {
        assert(path.take(k)[j] == path[j]);
    }
}

/// Setting an entry of a table in memory is a write to that entry.
proof fn lemma_set_is_write(
    mem: Map<u64, PageTable>,
    base: Map<u64, PageTable>,
    table: u64,
    index: int,
    ptr: PageTablePointer,
    after: PageTable,
)
    requires
        mem.contains_key(table),
        0 <= index < ENTRIES,
        !page_table::entry_present(entry(mem, table, index)),
        after.is_set(mem[table], index, ptr),
        mem.submap_of(base),
    ensures
        is_write(mem, base.insert(table, after), table, index),
        page_table::strip(entry(base.insert(table, after), table, index)) == page_table::strip(
            ptr.0,
        ),
{
    let next = base.insert(table, after);
    let changed = mem[table].entries@.update(index, ptr);
    page_table::lemma_counted(changed, 1);
    assert forall|t: u64, i: int|
        mem.contains_key(t) && 0 <= i < ENTRIES && (t != table || i
            != index) implies page_table::strip(#[trigger] entry(next, t, i)) == page_table::strip(
        entry(mem, t, i),
    ) by {
        if t == table {
            if i == 0 {
                assert(changed[0] == mem[table].entries@[0]);
            }
        } else {
            assert(base.dom().contains(t));
        }
    }
}

/// A page that is written to an unused entry is added to the pages.
proof fn lemma_page_written(
    mem: Map<u64, PageTable>,
    next: Map<u64, PageTable>,
    root: u64,
    path: Seq<int>,
    index: int,
)
    requires
        is_tree(mem, root),
        table_path(path),
        table_at(mem, root, path) is Some,
        is_write(mem, next, table_at(mem, root, path)->0, index),
        page_table::entry_present(entry(next, table_at(mem, root, path)->0, index)),
        path.len() == 3 || page_table::entry_huge(
            entry(next, table_at(mem, root, path)->0, index),
        ),
    ensures
        is_tree(next, root),
        pages(next, root) == pages(mem, root).insert(
            path.push(index),
            page_table::strip(entry(next, table_at(mem, root, path)->0, index)),
        ),
        links(next, root) == links(mem, root),
{
    let t = table_at(mem, root, path)->0;
    let e = entry(next, t, index);
    let full = path.push(index);
    lemma_write(mem, next, root, path, index);
    page_table::lemma_strip(e);
    assert(entry_path(full)) by {
        assert forall|k: int| 0 <= k < full.len() implies 0 <= #[trigger] full[k] < ENTRIES by {
            if k < path.len() {
                assert(full[k] == path[k]);
            }
        }
    }
    assert forall|q: Seq<int>| is_page(next, root, q) == (q == full || is_page(mem, root, q)) by {
        if entry_path(q) {
            if q.drop_last() == full && path.len() < 3 {
                lemma_drop_last_path(q);
                lemma_push_parts(path, index);
                assert(child(next, t, index) is None);
                assert(table_at(mem, root, full) is None);
            }
        }
    }
    assert(pages(next, root) =~= pages(mem, root).insert(full, page_table::strip(e)));
    assert forall|q: Seq<int>| is_link(next, root, q) == is_link(mem, root, q) by {
        if entry_path(q) {
            lemma_push_parts(path, index);
            page_table::lemma_strip(entry(mem, t, index));
            assert(mem.contains_key(t));
            if q.drop_last() == full && path.len() < 3 {
                lemma_drop_last_path(q);
                assert(child(next, t, index) is None);
                assert(table_at(mem, root, full) is None);
            }
        }
    }
    assert forall|q: Seq<int>| is_link(next, root, q) implies lookup(next, root, q) == lookup(
        mem,
        root,
        q,
    ) by {
        assert(is_link(mem, root, q));
        lemma_drop_last_path(q);
        lemma_push_parts(path, index);
        assert(q != full);
        if q.drop_last() == full && path.len() < 3 {
            assert(table_at(mem, root, full) is None);
        }
    }
    assert(links(next, root) =~= links(mem, root));
}

/// A table that is hung up at an unused entry maps nothing, and leaves every other
/// path free.
proof fn lemma_table_written(
    mem: Map<u64, PageTable>,
    next: Map<u64, PageTable>,
    root: u64,
    path: Seq<int>,
    index: int,
)
    requires
        is_tree(mem, root),
        table_path(path),
        path.len() < 3,
        table_at(mem, root, path) is Some,
        is_write(mem, next, table_at(mem, root, path)->0, index),
        is_fresh_child(mem, next, table_at(mem, root, path)->0, index),
        !page_table::entry_huge(entry(next, table_at(mem, root, path)->0, index)),
    ensures
        is_tree(next, root),
        pages(next, root) == pages(mem, root),
        page_table::entry_present(entry(next, table_at(mem, root, path)->0, index)) ==> links(
            next,
            root,
        ) == links(mem, root).insert(
            path.push(index),
            page_table::strip(entry(next, table_at(mem, root, path)->0, index))
                & PageTableFlags::ALL,
        ),
        !links(mem, root).contains_key(path.push(index)),
        forall|q: Seq<int>| #[trigger]
            entry_path(q) && path_free(mem, root, q) && q != path.push(index) ==> path_free(
                next,
                root,
                q,
            ),
{
    let t = table_at(mem, root, path)->0;
    let e = entry(next, t, index);
    let full = path.push(index);
    lemma_write(mem, next, root, path, index);
    page_table::lemma_strip(e);
    page_table::lemma_strip(entry(mem, t, index));
    lemma_push_parts(path, index);
    assert(mem.contains_key(t));
    assert(table_at(mem, root, full) is None);
    assert forall|q: Seq<int>| is_page(next, root, q) == is_page(mem, root, q) by {
        if entry_path(q) {
            lemma_drop_last_path(q);
            if q.drop_last() == full {
                match child(next, t, index) {
                    Some(c) => {
                        page_table::lemma_strip(entry(next, c, q.last()));
                        assert(!page_table::entry_present(entry(next, c, q.last())));
                    },
                    None => {},
                }
            }
        }
    }
    assert forall|q: Seq<int>| is_page(next, root, q) implies lookup(next, root, q) == lookup(
        mem,
        root,
        q,
    ) by {
        assert(is_page(mem, root, q));
        lemma_drop_last_path(q);
    }
    assert(pages(next, root) =~= pages(mem, root));
    lemma_push_path(path, index);
    assert forall|q: Seq<int>|
        page_table::entry_present(e) implies is_link(next, root, q) == (q == full || is_link(
        mem,
        root,
        q,
    )) by {
        if entry_path(q) {
            lemma_drop_last_path(q);
            if q.drop_last() == full {
                match child(next, t, index) {
                    Some(c) => {
                        page_table::lemma_strip(entry(next, c, q.last()));
                        assert(!page_table::entry_present(entry(next, c, q.last())));
                    },
                    None => {},
                }
            }
        }
    }
    if page_table::entry_present(e) {
        assert forall|q: Seq<int>| is_link(next, root, q) && q != full implies lookup(
            next,
            root,
            q,
        ) == lookup(mem, root, q) by {
            assert(is_link(mem, root, q));
            lemma_drop_last_path(q);
        }
        assert(links(next, root) =~= links(mem, root).insert(
            full,
            page_table::strip(e) & PageTableFlags::ALL,
        ));
    }
    assert forall|q: Seq<int>| #[trigger]
        entry_path(q) && path_free(mem, root, q) && q != full implies path_free(
        next,
        root,
        q,
    ) by {
        assert forall|k: int| 1 <= k <= q.len() implies (#[trigger] lookup(
            next,
            root,
            q.take(k),
        ) matches Some(f) ==> if k < q.len() {
            !page_table::entry_present(f) || !page_table::entry_huge(f)
        } else {
            !page_table::entry_present(f)
        }) by {
            lemma_take_path(q, k);
            if q.take(k) == full {
                if k == q.len() {
                    assert(q.take(k) =~= q);
                }
            } else if q.take(k - 1) == full {
                match child(next, t, index) {
                    Some(c) => {
                        page_table::lemma_strip(entry(next, c, q.take(k).last()));
                        assert(!page_table::entry_present(entry(next, c, q.take(k).last())));
                    },
                    None => {},
                }
            } else {
                assert(lookup(next, root, q.take(k)) == lookup(mem, root, q.take(k)));
            }
        }
    }
}

/// Whether every table that can be reached from the table at `table` in `level`
/// steps is there.
pub open spec fn reachable(mem: Map<u64, PageTable>, table: u64, level: nat) -> bool
    decreases level,
{
    &&& mem.contains_key(table)
    &&& level > 0 ==> forall|i: int|
        0 <= i < ENTRIES ==> (#[trigger] child(mem, table, i) matches Some(c) ==> reachable(
            mem,
            c,
            (level - 1) as nat,
        ))
}

/// The frames of the tables below the first `n` entries of a table, in the order
/// in which they are given back.
pub open spec fn frames_below(
    mem: Map<u64, PageTable>,
    table: u64,
    level: nat,
    n: nat,
) -> Seq<Allocation>
    decreases level, n,
{
    if n == 0 || level == 0 {
        Seq::empty()
    } else {
        frames_below(mem, table, level, (n - 1) as nat) + match child(mem, table, n - 1) {
            Some(c) => frames(mem, c, (level - 1) as nat),
            None => Seq::empty(),
        }
    }
}

/// The frames of a table and of the tables below it, in the order in which they
/// are given back: a table comes after all that lie below it.
pub open spec fn frames(mem: Map<u64, PageTable>, table: u64, level: nat) -> Seq<Allocation>
    decreases level, ENTRIES + 1,
{
    frames_below(mem, table, level, ENTRIES as nat).push(mem[table].page_frame())
}

/// The frames that are still in use after some were given back.
pub open spec fn give_back(live: Map<u64, Allocation>, frames: Seq<Allocation>) -> Map<
    u64,
    Allocation,
>
    decreases frames.len(),
{
    if frames.len() == 0 {
        live
    } else {
        give_back(live, frames.drop_last()).remove(frames.last().phys)
    }
}

/// Whether some frames can be given back, each while it is still in use.
pub open spec fn can_give_back(live: Map<u64, Allocation>, frames: Seq<Allocation>) -> bool
    decreases frames.len(),
{
    frames.len() > 0 ==> can_give_back(live, frames.drop_last()) && give_back(
        live,
        frames.drop_last(),
    ).contains_key(frames.last().phys)
}

/// Frames that are in use can be given back, each of them once.
pub proof fn lemma_can_give_back(live: Map<u64, Allocation>, frames: Seq<Allocation>)
    requires
        forall|k: int| 0 <= k < frames.len() ==> live.contains_key((#[trigger] frames[k]).phys),
        forall|k: int, l: int|
            0 <= k < l < frames.len() ==> (#[trigger] frames[k]).phys != (
            #[trigger] frames[l]).phys,
    ensures
        can_give_back(live, frames),
        forall|t: u64| #[trigger]
            live.contains_key(t) && (forall|k: int|
                0 <= k < frames.len() ==> (#[trigger] frames[k]).phys != t) ==> give_back(
                live,
                frames,
            ).contains_key(t),
    decreases frames.len(),
{
    if frames.len() > 0 {
        let rest = frames.drop_last();
        let n = rest.len() as int;
        assert forall|k: int| 0 <= k < rest.len() implies rest[k] == frames[k] by {}
        lemma_can_give_back(live, rest);
        assert(live.contains_key(frames[n].phys));
        assert forall|k: int| 0 <= k < rest.len() implies (#[trigger] rest[k]).phys
            != frames[n].phys by {
            assert(frames[k].phys != frames[n].phys);
        }
        assert forall|t: u64| #[trigger]
            live.contains_key(t) && (forall|k: int|
                0 <= k < frames.len() ==> (#[trigger] frames[k]).phys != t) implies give_back(
            live,
            frames,
        ).contains_key(t) by {
            assert forall|k: int| 0 <= k < rest.len() implies (#[trigger] rest[k]).phys != t by {
                assert(frames[k].phys != t);
            }
            assert(frames[n].phys != t);
        }
    }
}

proof fn lemma_can_give_back_parts(
    live: Map<u64, Allocation>,
    a: Seq<Allocation>,
    b: Seq<Allocation>,
)
    requires
        can_give_back(live, a + b),
    ensures
        can_give_back(live, a),
        can_give_back(give_back(live, a), b),
    decreases b.len(),
{
    if b.len() == 0 {
        assert(a + b =~= a);
    } else {
        assert((a + b).drop_last() =~= a + b.drop_last());
        assert((a + b).last() == b.last());
        lemma_can_give_back_parts(live, a, b.drop_last());
        lemma_give_back(live, a, b.drop_last());
    }
}

/// Where the frames below all entries can be given back, those below the first `n` can.
proof fn lemma_can_give_back_below(
    live: Map<u64, Allocation>,
    mem: Map<u64, PageTable>,
    table: u64,
    level: nat,
    n: nat,
)
    requires
        level > 0,
        n <= ENTRIES,
        can_give_back(live, frames_below(mem, table, level, ENTRIES as nat)),
    ensures
        can_give_back(live, frames_below(mem, table, level, n)),
    decreases ENTRIES - n,
{
    if n < ENTRIES {
        lemma_can_give_back_below(live, mem, table, level, n + 1);
        let below = frames_below(mem, table, level, n);
        let more = match child(mem, table, n as int) {
            Some(c) => frames(mem, c, (level - 1) as nat),
            None => Seq::empty(),
        };
        assert(frames_below(mem, table, level, n + 1) == below + more);
        lemma_can_give_back_parts(live, below, more);
    }
}

proof fn lemma_give_back(live: Map<u64, Allocation>, a: Seq<Allocation>, b: Seq<Allocation>)
    ensures
        give_back(live, a + b) == give_back(give_back(live, a), b),
    decreases b.len(),
{
    if b.len() == 0 {
        assert(a + b =~= a);
    } else {
        assert((a + b).drop_last() =~= a + b.drop_last());
        lemma_give_back(live, a, b.drop_last());
    }
}

/// In a tree every table that can be reached is there.
pub proof fn lemma_tree_reachable(
    mem: Map<u64, PageTable>,
    root: u64,
    path: Seq<int>,
    level: nat,
)
    requires
        is_tree(mem, root),
        table_path(path),
        table_at(mem, root, path) is Some,
        path.len() + level <= 3,
    ensures
        reachable(mem, table_at(mem, root, path)->0, level),
    decreases level,
{
    let t = table_at(mem, root, path)->0;
    assert(mem.contains_key(t));
    if level > 0 {
        assert forall|i: int| 0 <= i < ENTRIES implies (#[trigger] child(mem, t, i) matches Some(c)
            ==> reachable(mem, c, (level - 1) as nat)) by {
            if child(mem, t, i) is Some {
                lemma_push_parts(path, i);
                lemma_push_path(path, i);
                lemma_tree_reachable(mem, root, path.push(i), (level - 1) as nat);
            }
        }
    }
}

/// Whether `q` leads to a table in at most `level` steps below the one at `p`, and
/// leaves that one at an entry before `n`.
spec fn leads_below(p: Seq<int>, level: nat, n: nat, q: Seq<int>) -> bool {
    &&& valid_path(q)
    &&& is_prefix(p, q)
    &&& p.len() < q.len() <= p.len() + level
    &&& q[p.len() as int] < n
}

/// Whether `q` leads to the table at `p` or to one in at most `level` steps below.
spec fn leads_to(p: Seq<int>, level: nat, q: Seq<int>) -> bool {
    &&& valid_path(q)
    &&& is_prefix(p, q)
    &&& q.len() <= p.len() + level
}

proof fn lemma_walk_passes(mem: Map<u64, PageTable>, root: u64, p: Seq<int>, q: Seq<int>)
    requires
        is_prefix(p, q),
        table_at(mem, root, q) is Some,
    ensures
        table_at(mem, root, p) is Some,
    decreases q.len(),
{
    if p.len() < q.len() {
        assert(q.drop_last().take(p.len() as int) =~= q.take(p.len() as int));
        lemma_walk_passes(mem, root, p, q.drop_last());
    } else {
        assert(q.take(p.len() as int) =~= q);
    }
}

proof fn lemma_frames_below(
    mem: Map<u64, PageTable>,
    root: u64,
    p: Seq<int>,
    level: nat,
    n: nat,
)
    requires
        is_tree_to(mem, root, (p.len() + level) as int),
        own_frames(mem),
        valid_path(p),
        table_at(mem, root, p) is Some,
        n <= ENTRIES,
    ensures
        ({
            let fs = frames_below(mem, table_at(mem, root, p)->0, level, n);
            &&& forall|k: int|
                0 <= k < fs.len() ==> exists|q: Seq<int>|
                    leads_below(p, level, n, q) && #[trigger] table_at(mem, root, q) == Some(
                        (#[trigger] fs[k]).phys,
                    )
            &&& forall|k: int|
                0 <= k < fs.len() ==> {
                    &&& mem.contains_key((#[trigger] fs[k]).phys)
                    &&& fs[k] == mem[fs[k].phys].page_frame()
                }
            &&& forall|k: int, l: int|
                0 <= k < l < fs.len() ==> (#[trigger] fs[k]).phys != (#[trigger] fs[l]).phys
            &&& forall|q: Seq<int>|
                leads_below(p, level, n, q) && #[trigger] table_at(mem, root, q) is Some
                    ==> exists|k: int|
                    0 <= k < fs.len() && Some((#[trigger] fs[k]).phys) == table_at(mem, root, q)
        }),
    decreases level, n,
{
    let t = table_at(mem, root, p)->0;
    let fs = frames_below(mem, t, level, n);
    if n == 0 || level == 0 {
        assert forall|q: Seq<int>| !leads_below(p, level, n, q) by {
            if leads_below(p, level, n, q) {
                assert(0 <= q[p.len() as int]);
            }
        }
    } else {
        let i = n - 1;
        let front = frames_below(mem, t, level, i as nat);
        lemma_frames_below(mem, root, p, level, i as nat);
        lemma_push_parts(p, i);
        lemma_push_path(p, i);
        let below = p.push(i);
        let back = match child(mem, t, i) {
            Some(c) => frames(mem, c, (level - 1) as nat),
            None => Seq::empty(),
        };
        assert(fs == front + back);
        if child(mem, t, i) is Some {
            lemma_frames(mem, root, below, (level - 1) as nat);
        }
        assert forall|k: int| 0 <= k < fs.len() implies exists|q: Seq<int>|
            leads_below(p, level, n, q) && #[trigger] table_at(mem, root, q) == Some(
                (#[trigger] fs[k]).phys,
            ) by {
            if k < front.len() {
                assert(fs[k] == front[k]);
                let q = choose|q: Seq<int>|
                    leads_below(p, level, i as nat, q) && #[trigger] table_at(mem, root, q) == Some(
                        front[k].phys,
                    );
                assert(leads_below(p, level, n, q));
            } else {
                let j = k - front.len();
                assert(fs[k] == back[j]);
                let q = choose|q: Seq<int>|
                    leads_to(below, (level - 1) as nat, q) && #[trigger] table_at(mem, root, q)
                        == Some(back[j].phys);
                lemma_below_prefix(p, i, q);
                assert(leads_below(p, level, n, q));
            }
        }
        assert forall|k: int| 0 <= k < fs.len() implies mem.contains_key((#[trigger] fs[k]).phys)
            && fs[k] == mem[fs[k].phys].page_frame() by {
            if k < front.len() {
                assert(fs[k] == front[k]);
            } else {
                assert(fs[k] == back[k - front.len()]);
            }
        }
        assert forall|k: int, l: int| 0 <= k < l < fs.len() implies (#[trigger] fs[k]).phys != (
        #[trigger] fs[l]).phys by {
            let m = front.len() as int;
            if l < m {
                assert(fs[k] == front[k] && fs[l] == front[l]);
            } else if k >= m {
                assert(fs[k] == back[k - m] && fs[l] == back[l - m]);
            } else {
                assert(fs[k] == front[k] && fs[l] == back[l - m]);
                let q = choose|q: Seq<int>|
                    leads_below(p, level, i as nat, q) && #[trigger] table_at(mem, root, q) == Some(
                        front[k].phys,
                    );
                let r = choose|r: Seq<int>|
                    leads_to(below, (level - 1) as nat, r) && #[trigger] table_at(mem, root, r)
                        == Some(back[l - m].phys);
                lemma_below_prefix(p, i, r);
                if fs[k].phys == fs[l].phys {
                    assert(q == r);
                }
            }
        }
        assert forall|q: Seq<int>|
            leads_below(p, level, n, q) && #[trigger] table_at(mem, root, q) is Some implies exists|
            k: int,
        |
            0 <= k < fs.len() && Some((#[trigger] fs[k]).phys) == table_at(mem, root, q) by {
            if q[p.len() as int] < i {
                assert(leads_below(p, level, i as nat, q));
                let k = choose|k: int|
                    0 <= k < front.len() && Some((#[trigger] front[k]).phys) == table_at(
                        mem,
                        root,
                        q,
                    );
                assert(fs[k] == front[k]);
            } else {
                assert(q.take(below.len() as int) =~= below) by {
                    assert(q.take(p.len() as int) == p);
                    assert forall|m: int| 0 <= m < p.len() implies q[m] == #[trigger] p[m] by {
                        assert(q.take(p.len() as int)[m] == q[m]);
                    }
                }
                lemma_walk_passes(mem, root, below, q);
                assert(leads_to(below, (level - 1) as nat, q));
                let k = choose|k: int|
                    0 <= k < back.len() && Some((#[trigger] back[k]).phys) == table_at(
                        mem,
                        root,
                        q,
                    );
                assert(fs[front.len() + k] == back[k]);
            }
        }
    }
}

proof fn lemma_below_prefix(p: Seq<int>, i: int, q: Seq<int>)
    requires
        is_prefix(p.push(i), q),
    ensures
        is_prefix(p, q),
        p.len() < q.len(),
        q[p.len() as int] == i,
{
    let below = p.push(i);
    assert(q.take(below.len() as int)[p.len() as int] == i);
    assert(q.take(p.len() as int) =~= p) by {
        assert forall|m: int| 0 <= m < p.len() implies q[m] == #[trigger] p[m] by {
            assert(q.take(below.len() as int)[m] == below[m]);
        }
    }
}

proof fn lemma_frames(mem: Map<u64, PageTable>, root: u64, p: Seq<int>, level: nat)
    requires
        is_tree_to(mem, root, (p.len() + level) as int),
        own_frames(mem),
        valid_path(p),
        table_at(mem, root, p) is Some,
    ensures
        ({
            let fs = frames(mem, table_at(mem, root, p)->0, level);
            &&& forall|k: int|
                0 <= k < fs.len() ==> exists|q: Seq<int>|
                    leads_to(p, level, q) && #[trigger] table_at(mem, root, q) == Some(
                        (#[trigger] fs[k]).phys,
                    )
            &&& forall|k: int|
                0 <= k < fs.len() ==> {
                    &&& mem.contains_key((#[trigger] fs[k]).phys)
                    &&& fs[k] == mem[fs[k].phys].page_frame()
                }
            &&& forall|k: int, l: int|
                0 <= k < l < fs.len() ==> (#[trigger] fs[k]).phys != (#[trigger] fs[l]).phys
            &&& forall|q: Seq<int>|
                leads_to(p, level, q) && #[trigger] table_at(mem, root, q) is Some ==> exists|
                    k: int,
                |
                    0 <= k < fs.len() && Some((#[trigger] fs[k]).phys) == table_at(mem, root, q)
        }),
    decreases level, ENTRIES + 1,
{
    let t = table_at(mem, root, p)->0;
    let fs = frames(mem, t, level);
    let front = frames_below(mem, t, level, ENTRIES as nat);
    lemma_frames_below(mem, root, p, level, ENTRIES as nat);
    assert(mem.contains_key(t));
    assert(mem[t].frame.phys == t);
    assert(p.take(p.len() as int) =~= p);
    assert forall|k: int| 0 <= k < fs.len() implies exists|q: Seq<int>|
        leads_to(p, level, q) && #[trigger] table_at(mem, root, q) == Some(
            (#[trigger] fs[k]).phys,
        ) by {
        if k < front.len() {
            assert(fs[k] == front[k]);
            let q = choose|q: Seq<int>|
                leads_below(p, level, ENTRIES as nat, q) && #[trigger] table_at(mem, root, q)
                    == Some(front[k].phys);
            assert(leads_to(p, level, q));
        } else {
            assert(leads_to(p, level, p));
        }
    }
    assert forall|k: int| 0 <= k < fs.len() implies mem.contains_key((#[trigger] fs[k]).phys)
        && fs[k] == mem[fs[k].phys].page_frame() by {
        if k < front.len() {
            assert(fs[k] == front[k]);
        }
    }
    assert forall|k: int, l: int| 0 <= k < l < fs.len() implies (#[trigger] fs[k]).phys != (
    #[trigger] fs[l]).phys by {
        assert(fs[k] == front[k]);
        if l < front.len() {
            assert(fs[l] == front[l]);
        } else {
            let q = choose|q: Seq<int>|
                leads_below(p, level, ENTRIES as nat, q) && #[trigger] table_at(mem, root, q)
                    == Some(front[k].phys);
            if fs[k].phys == fs[l].phys {
                assert(q == p);
            }
        }
    }
    assert forall|q: Seq<int>|
        leads_to(p, level, q) && #[trigger] table_at(mem, root, q) is Some implies exists|k: int|
        0 <= k < fs.len() && Some((#[trigger] fs[k]).phys) == table_at(mem, root, q) by {
        if q.len() > p.len() {
            assert(q[p.len() as int] < ENTRIES);
            assert(leads_below(p, level, ENTRIES as nat, q));
            let k = choose|k: int|
                0 <= k < front.len() && Some((#[trigger] front[k]).phys) == table_at(mem, root, q);
            assert(fs[k] == front[k]);
        } else {
            assert(q.take(p.len() as int) =~= q);
            assert(fs[fs.len() - 1].phys == t);
        }
    }
}

/// When a table is given up with all tables in at most `level` steps below it, the frame of
/// every one of them is given back as the table knows it, and none of them twice.
pub proof fn lemma_frames_once(mem: Map<u64, PageTable>, root: u64, level: nat)
    requires
        is_tree_to(mem, root, level as int),
        own_frames(mem),
    ensures
        forall|k: int, l: int|
            0 <= k < l < frames(mem, root, level).len() ==> (#[trigger] frames(
                mem,
                root,
                level,
            )[k]).phys != (#[trigger] frames(mem, root, level)[l]).phys,
        forall|k: int|
            0 <= k < frames(mem, root, level).len() ==> #[trigger] frames(mem, root, level)[k]
                == mem[frames(mem, root, level)[k].phys].page_frame(),
        forall|t: u64|
            (exists|k: int|
                0 <= k < frames(mem, root, level).len() && (#[trigger] frames(
                    mem,
                    root,
                    level,
                )[k]).phys == t) <==> #[trigger] is_reached(mem, root, level, t),
{
    let none = Seq::<int>::empty();
    assert(table_at(mem, root, none) == Some(root));
    lemma_frames(mem, root, none, level);
    let fs = frames(mem, root, level);
    assert forall|t: u64|
        (exists|k: int| 0 <= k < fs.len() && (#[trigger] fs[k]).phys == t) <==> #[trigger] is_reached(
            mem,
            root,
            level,
            t,
        ) by {
        if is_reached(mem, root, level, t) {
            let q = choose|q: Seq<int>|
                valid_path(q) && q.len() <= level && #[trigger] table_at(mem, root, q) == Some(t);
            assert(q.take(0) =~= none);
            assert(leads_to(none, level, q));
        }
        if exists|k: int| 0 <= k < fs.len() && (#[trigger] fs[k]).phys == t {
            let k = choose|k: int| 0 <= k < fs.len() && (#[trigger] fs[k]).phys == t;
            let q = choose|q: Seq<int>|
                leads_to(none, level, q) && #[trigger] table_at(mem, root, q) == Some(fs[k].phys);
        }
    }
}

/// Whether some walk of at most `level` steps leads to the table at `table`.
pub open spec fn is_reached(mem: Map<u64, PageTable>, root: u64, level: nat, table: u64) -> bool {
    exists|q: Seq<int>|
        valid_path(q) && q.len() <= level && #[trigger] table_at(mem, root, q) == Some(table)
}

proof fn lemma_push_path(path: Seq<int>, index: int)
    requires
        valid_path(path),
        0 <= index < ENTRIES,
    ensures
        valid_path(path.push(index)),
{
    assert forall|k: int| 0 <= k < path.push(index).len() implies 0 <= #[trigger] path.push(
        index,
    )[k] < ENTRIES by {
        if k < path.len() {
            assert(path.push(index)[k] == path[k]);
        }
    }
}

impl PageTable {
    /// The entry that refers to the table at `index`.
    pub fn get(&self, index: usize) -> (pointer: PageTablePointer)
        requires
            index < ENTRIES,
            page_table::entry_present(self.entries@[index as int].0),
        ensures
            pointer == self.entries@[index as int],
    {
        self.entries[index]
    }

    /// The entry that refers to the table at `index`; where there is none, a new
    /// table is hung up there.
    pub fn get_or_alloc<T: FrameAllocator>(
        mem: &mut PageMemory,
        table: PageTablePointer,
        index: usize,
        allocer: &mut T,
        flags: PageTableFlags,
    ) -> (pointer: PageTablePointer)
        requires
            index < ENTRIES,
            flags.valid(),
            page_table::entry_present(table.0),
            old(mem)@.contains_key(page_table::entry_addr(table.0)),
            old(mem)@.dom().subset_of(old(allocer).live().dom()),
        ensures
            page_table::entry_present(
                entry(old(mem)@, page_table::entry_addr(table.0), index as int),
            ) ==> {
                &&& pointer.0 == entry(old(mem)@, page_table::entry_addr(table.0), index as int)
                &&& final(mem)@ == old(mem)@
                &&& *final(allocer) == *old(allocer)
            },
            !page_table::entry_present(
                entry(old(mem)@, page_table::entry_addr(table.0), index as int),
            ) ==> {
                let t = page_table::entry_addr(table.0);
                let f = page_table::entry_addr(pointer.0);
                let blank = final(mem)@[f];
                &&& pointer.0 == f | (flags.bits | PageTableFlags::PRESENT)
                &&& page_table::entry_present(pointer.0)
                &&& page_table::entry_huge(pointer.0) == crate::mem::flags::has_all(
                    flags.bits,
                    PageTableFlags::HUGE,
                )
                &&& !old(allocer).live().contains_key(f)
                &&& final(allocer).live() == old(allocer).live().insert(f, blank.frame)
                &&& final(allocer).returned() == old(allocer).returned()
                &&& blank.is_blank(0)
                &&& blank.frame.phys == f
                &&& final(mem)@[t].is_set(old(mem)@[t], index as int, pointer)
                &&& final(mem)@ == old(mem)@.insert(f, blank).insert(t, final(mem)@[t])
            },
    {
        let current = table.as_ref(mem).unwrap();
        if current.present(index) {
            return current.get(index);
        }
        let out = PageTable::new(mem, allocer, flags, true);
        let parent = table.as_mut(mem).unwrap();
        parent.set(index, out);
        out
    }

    /// Takes an entry that is not in use any more off the count, and gives the frame of the
    /// table back where nothing is counted then. An entry that is in use is left alone. Tells
    /// whether the frame was given back.
    pub fn remove<T: FrameAllocator>(&mut self, index: usize, allocer: &mut T) -> (dropped: bool)
        requires
            index < ENTRIES,
            !page_table::entry_present(old(self).entries@[index as int].0)
                && page_table::count_of(old(self).entries@[0].0) == 1
                ==> old(allocer).live().contains_key(old(self).frame.phys),
        ensures
            final(self).frame == old(self).frame,
            page_table::entry_present(old(self).entries@[index as int].0) ==> {
                &&& !dropped
                &&& final(self).entries@ == old(self).entries@
            },
            !page_table::entry_present(old(self).entries@[index as int].0) ==> {
                &&& final(self).is_cleared(*old(self), index as int)
                &&& dropped == (page_table::count_of(final(self).entries@[0].0) == 0)
            },
            dropped ==> {
                &&& final(allocer).live() == old(allocer).live().remove(old(self).frame.phys)
                &&& final(allocer).returned() == old(allocer).returned().push(
                    old(self).page_frame(),
                )
            },
            !dropped ==> *final(allocer) == *old(allocer),
    {
        if !self.present(index) {
            self.clear(index);
            proof {
                page_table::lemma_clear_counts(*old(self), *self, index as int);
            }
            self.free_if_empty(allocer)
        } else {
            false
        }
    }

    /// Gives back the frames of the root table and of all tables below it.
    pub fn dealloc_all<T: FrameAllocator>(
        mem: &PageMemory,
        table: PageTablePointer,
        allocer: &mut T,
    )
        requires
            page_table::entry_present(table.0),
            reachable(mem@, page_table::entry_addr(table.0), 3),
            can_give_back(
                old(allocer).live(),
                frames(mem@, page_table::entry_addr(table.0), 3),
            ),
        ensures
            final(allocer).returned() == old(allocer).returned() + frames(
                mem@,
                page_table::entry_addr(table.0),
                3,
            ),
            final(allocer).live() == give_back(
                old(allocer).live(),
                frames(mem@, page_table::entry_addr(table.0), 3),
            ),
    {
        PageTable::dealloc_recurse(mem, table, allocer, 3);
    }

    /// Gives back the frames of a table and of the tables in `level` steps below
    /// it.
    pub fn dealloc_recurse<T: FrameAllocator>(
        mem: &PageMemory,
        table: PageTablePointer,
        allocer: &mut T,
        level: usize,
    )
        requires
            page_table::entry_present(table.0),
            reachable(mem@, page_table::entry_addr(table.0), level as nat),
            can_give_back(
                old(allocer).live(),
                frames(mem@, page_table::entry_addr(table.0), level as nat),
            ),
        ensures
            final(allocer).returned() == old(allocer).returned() + frames(
                mem@,
                page_table::entry_addr(table.0),
                level as nat,
            ),
            final(allocer).live() == give_back(
                old(allocer).live(),
                frames(mem@, page_table::entry_addr(table.0), level as nat),
            ),
        decreases level,
    {
        let ghost t = page_table::entry_addr(table.0);
        let current = table.as_ref(mem).unwrap();
        proof {
            let all = frames(mem@, t, level as nat);
            assert(all.drop_last() =~= frames_below(mem@, t, level as nat, ENTRIES as nat));
        }
        if level > 0 {
            let mut index: usize = 0;
            while index < ENTRIES
                invariant
                    0 <= index <= ENTRIES,
                    level > 0,
                    t == page_table::entry_addr(table.0),
                    mem@.contains_key(t),
                    *current == mem@[t],
                    reachable(mem@, t, level as nat),
                    can_give_back(
                        old(allocer).live(),
                        frames_below(mem@, t, level as nat, ENTRIES as nat),
                    ),
                    allocer.returned() == old(allocer).returned() + frames_below(
                        mem@,
                        t,
                        level as nat,
                        index as nat,
                    ),
                    allocer.live() == give_back(
                        old(allocer).live(),
                        frames_below(mem@, t, level as nat, index as nat),
                    ),
                decreases ENTRIES - index,
            {
                let pointer = current.entries[index];
                let ghost below = frames_below(mem@, t, level as nat, index as nat);
                let ghost c = child(mem@, t, index as int);
                proof {
                    lemma_flags_huge(pointer.0);
                }
                if !pointer.flags().contains(PageTableFlags::HUGE) {
                    if pointer.0 & PageTableFlags::PRESENT != 0 {
                        assert(c == Some(page_table::entry_addr(pointer.0)));
                        proof {
                            lemma_can_give_back_below(
                                old(allocer).live(),
                                mem@,
                                t,
                                level as nat,
                                (index + 1) as nat,
                            );
                            lemma_can_give_back_parts(
                                old(allocer).live(),
                                below,
                                frames(mem@, c->0, (level - 1) as nat),
                            );
                            lemma_give_back(
                                old(allocer).live(),
                                below,
                                frames(mem@, c->0, (level - 1) as nat),
                            );
                        }
                        PageTable::dealloc_recurse(mem, pointer, allocer, level - 1);
                    } else {
                        assert(below + Seq::<Allocation>::empty() =~= below);
                    }
                } else {
                    assert(below + Seq::<Allocation>::empty() =~= below);
                }
                index = index + 1;
                assert(allocer.returned() =~= old(allocer).returned() + frames_below(
                    mem@,
                    t,
                    level as nat,
                    index as nat,
                ));
            }
        } else {
            assert(frames_below(mem@, t, 0, ENTRIES as nat) == Seq::<Allocation>::empty());
        }
        let ghost below = frames_below(mem@, t, level as nat, ENTRIES as nat);
        current.dealloc(allocer);
        proof {
            let all = frames(mem@, t, level as nat);
            assert(all.drop_last() =~= below);
            assert(all.last() == current.page_frame());
            assert(give_back(old(allocer).live(), all) == give_back(
                old(allocer).live(),
                below,
            ).remove(current.frame.phys));
            assert(allocer.returned() =~= old(allocer).returned() + frames(
                mem@,
                t,
                level as nat,
            ));
        }
    }
}

proof fn lemma_flags_huge_bits(e: u64)
    by (bit_vector)
    ensures
        (e & 0x8000_0000_0000_01ff) & (1u64 << 7) == e & (1u64 << 7),
{
}

proof fn lemma_flags_huge(e: u64)
    ensures
        crate::mem::flags::has_all(e & PageTableFlags::ALL, PageTableFlags::HUGE)
            == page_table::entry_huge(e),
{
    lemma_flags_huge_bits(e);
}

/// The index at which a walk for `addr` leaves the table at depth `depth`.
pub open spec fn index_of(addr: u64, depth: int) -> int {
    if depth == 0 {
        (addr as int / 0x80_0000_0000) % 512
    } else if depth == 1 {
        (addr as int / 0x4000_0000) % 512
    } else if depth == 2 {
        (addr as int / 0x20_0000) % 512
    } else {
        (addr as int / 0x1000) % 512
    }
}

/// The first `len` steps of the walk for `addr`.
pub open spec fn path_of(addr: u64, len: int) -> Seq<int> {
    Seq::new(len as nat, |depth: int| index_of(addr, depth))
}

/// The indices of the walk for an address.
pub fn indices(addr: u64) -> (nums: [usize; 4])
    ensures
        forall|k: int| 0 <= k < 4 ==> #[trigger] nums@[k] == index_of(addr, k),
        forall|k: int| 0 <= k < 4 ==> #[trigger] nums@[k] < ENTRIES,
{
    proof {
        vstd::arithmetic::power2::lemma2_to64();
        vstd::arithmetic::power2::lemma2_to64_rest();
    }
    [
        get_bits(addr, 39, 48) as usize,
        get_bits(addr, 30, 39) as usize,
        get_bits(addr, 21, 30) as usize,
        get_bits(addr, 12, 21) as usize,
    ]
}

/// The flags of the entries that refer to tables: they allow everything, so that
/// the entry of the page decides.
pub const PARENT_FLAGS: u64 = 7;

proof fn lemma_parent_flags()
    by (bit_vector)
    ensures
        7u64 == 1u64 | 1u64 << 1 | 1u64 << 2,
        7u64 & 0x8000_0000_0000_01ff == 7,
        7u64 & (1u64 << 7) != 1u64 << 7,
        0u64 & 1 == 0,
{
}

proof fn lemma_parent_entry_bits(addr: u64)
    by (bit_vector)
    requires
        addr & 0x000f_ffff_ffff_f000 == addr,
    ensures
        ((addr | (7u64 | 1)) & 0x800f_ffff_ffff_ffff) & 0x8000_0000_0000_01ff == 7,
{
}

proof fn lemma_parent_entry(addr: u64)
    requires
        page_table::entry_addr(addr) == addr,
    ensures
        page_table::strip(addr | (PARENT_FLAGS | PageTableFlags::PRESENT)) & PageTableFlags::ALL
            == PARENT_FLAGS,
{
    lemma_parent_entry_bits(addr);
}

/// The entry of a blank table reads as unused.
pub proof fn lemma_blank_unused(table: PageTable, n: u64, index: int)
    requires
        table.is_blank(n),
        0 <= index < ENTRIES,
    ensures
        !page_table::entry_present(table.entries@[index].0),
        page_table::strip(table.entries@[index].0) == page_table::strip(0),
{
    lemma_parent_flags();
    page_table::lemma_with_count(0, n);
    page_table::lemma_strip(0);
    page_table::lemma_strip(page_table::with_count(0, n));
}

/// Maps a page: walks along the first `depth` of `nums`, hanging up tables where
/// there are none, and sets the entry that the walk ends at.
pub fn map_page<T: FrameAllocator>(
    mem: &mut PageMemory,
    root: PageTablePointer,
    nums: [usize; 4],
    depth: usize,
    leaf: PageTablePointer,
    allocer: &mut T,
)
    requires
        2 <= depth <= 4,
        forall|k: int| 0 <= k < 4 ==> #[trigger] nums@[k] < ENTRIES,
        page_table::entry_present(root.0),
        is_tree(old(mem)@, page_table::entry_addr(root.0)),
        page_table::frames_of(old(mem)@).submap_of(old(allocer).live()),
        path_free(
            old(mem)@,
            page_table::entry_addr(root.0),
            Seq::new(depth as nat, |k: int| nums@[k] as int),
        ),
        page_table::entry_present(leaf.0),
        depth < 4 ==> page_table::entry_huge(leaf.0),
    ensures
        maps_page(
            TableState {
                tables: old(mem)@,
                live: old(allocer).live(),
                returned: old(allocer).returned(),
            },
            TableState {
                tables: final(mem)@,
                live: final(allocer).live(),
                returned: final(allocer).returned(),
            },
            page_table::entry_addr(root.0),
            Seq::new(depth as nat, |k: int| nums@[k] as int),
            leaf.0,
        ),
{
    let ghost path = Seq::new(depth as nat, |k: int| nums@[k] as int);
    let ghost r = page_table::entry_addr(root.0);
    let ghost before = mem@;
    assert(entry_path(path));
    let mut table = root;
    let mut d: usize = 0;
    assert(path.take(0) =~= Seq::<int>::empty());
    assert(allocer.live() =~= old(allocer).live().union_prefer_right(
        page_table::frames_of(mem@),
    )) by {
        assert forall|t: u64| mem@.contains_key(t) implies allocer.live().contains_key(t)
            && allocer.live()[t] == mem@[t].frame by {
            assert(page_table::frames_of(mem@).dom().contains(t));
        }
    }
    while d < depth - 1
        invariant
            2 <= depth <= 4,
            d <= depth - 1,
            forall|k: int| 0 <= k < 4 ==> #[trigger] nums@[k] < ENTRIES,
            path == Seq::new(depth as nat, |k: int| nums@[k] as int),
            entry_path(path),
            r == page_table::entry_addr(root.0),
            page_table::entry_present(table.0),
            table_at(mem@, r, path.take(d as int)) == Some(page_table::entry_addr(table.0)),
            is_tree(mem@, r),
            before.dom().subset_of(mem@.dom()),
            before.contains_key(page_table::entry_addr(table.0)) ==> mem@ == before,
            !before.contains_key(page_table::entry_addr(table.0)) ==> {
                &&& mem@[page_table::entry_addr(table.0)].is_blank(0)
                &&& mem@[page_table::entry_addr(table.0)].frame.phys == page_table::entry_addr(
                    table.0,
                )
            },
            forall|x: u64|
                before.contains_key(x) ==> (#[trigger] mem@[x]) == before[x] || gains_entry(
                    before[x],
                    mem@[x],
                ),
            forall|x: u64|
                mem@.contains_key(x) && !before.contains_key(x) && x != page_table::entry_addr(
                    table.0,
                ) ==> has_first_entry(x, #[trigger] mem@[x]),
            allocer.live() == old(allocer).live().union_prefer_right(page_table::frames_of(mem@)),
            allocer.returned() == old(allocer).returned(),
            path_free(mem@, r, path),
            pages(mem@, r) == pages(before, r),
            links(mem@, r) == with_parents(links(before, r), path, d as int),
        decreases depth - d,
    {
        let i: usize = nums[d];
        let ghost prefix = path.take(d as int);
        let ghost t = page_table::entry_addr(table.0);
        let ghost now = mem@;
        proof {
            lemma_parent_flags();
            assert(table_path(prefix)) by {
                assert forall|k: int| 0 <= k < prefix.len() implies 0 <= #[trigger] prefix[k]
                    < ENTRIES by {
                    assert(prefix[k] == path[k]);
                }
            }
            assert(mem@.contains_key(t));
            assert(path.take(d + 1) =~= prefix.push(i as int));
            lemma_push_parts(prefix, i as int);
            assert(lookup(now, r, path.take(d + 1)) == Some(
                page_table::strip(entry(now, t, i as int)),
            ));
            page_table::lemma_strip(entry(now, t, i as int));
        }
        let next = PageTable::get_or_alloc(
            mem,
            table,
            i,
            allocer,
            PageTableFlags { bits: PARENT_FLAGS },
        );
        proof {
            if page_table::entry_present(entry(now, t, i as int)) {
                assert(child(now, t, i as int) == Some(page_table::entry_addr(next.0)));
                lemma_take_path(path, d + 1);
                assert(is_link(now, r, path.take(d + 1)));
                if !before.contains_key(t) {
                    lemma_blank_unused(now[t], 0, i as int);
                }
                assert(table_at(now, r, path.take(d + 1)) == Some(
                    page_table::entry_addr(next.0),
                ));
                assert(valid_path(path.take(d + 1)));
                assert(now.contains_key(page_table::entry_addr(next.0)));
            } else {
                let f = page_table::entry_addr(next.0);
                let base = now.insert(f, mem@[f]);
                assert(!now.contains_key(f));
                assert(f != t);
                assert(mem@[f] == base[f]);
                assert(now.submap_of(base));
                lemma_set_is_write(now, base, t, i as int, next, mem@[t]);
                assert(mem@ =~= base.insert(t, mem@[t]));
                assert(allocer.live() =~= old(allocer).live().union_prefer_right(
                    page_table::frames_of(mem@),
                ));
                page_table::lemma_strip(entry(mem@, t, i as int));
                page_table::lemma_strip(next.0);
                assert(child(mem@, t, i as int) == Some(f));
                assert forall|j: int| 0 <= j < ENTRIES implies !page_table::entry_present(
                    #[trigger] entry(mem@, f, j),
                ) by {
                    lemma_blank_unused(mem@[f], 0, j);
                }
                assert(is_fresh_child(now, mem@, t, i as int));
                lemma_parent_entry(f);
                lemma_table_written(now, mem@, r, prefix, i as int);
                lemma_write(now, mem@, r, prefix, i as int);
                assert(gains_entry(now[t], mem@[t]));
                assert(before.dom().contains(f) ==> now.dom().contains(f));
                lemma_push_path(prefix, i as int);
                assert(table_path(prefix.push(i as int)));
                assert(path != prefix.push(i as int)) by {
                    assert(path.len() > prefix.push(i as int).len());
                }
            }
        }
        table = next;
        d = d + 1;
    }
    let ghost prefix = path.take(d as int);
    let ghost t = page_table::entry_addr(table.0);
    let ghost now = mem@;
    let i: usize = nums[d];
    proof {
        assert(table_path(prefix)) by {
            assert forall|k: int| 0 <= k < prefix.len() implies 0 <= #[trigger] prefix[k]
                < ENTRIES by {
                assert(prefix[k] == path[k]);
            }
        }
        assert(mem@.contains_key(t));
        assert(path =~= prefix.push(i as int));
        assert(path.take(depth as int) =~= path);
        lemma_push_parts(prefix, i as int);
        assert(lookup(now, r, path.take(depth as int)) == Some(
            page_table::strip(entry(now, t, i as int)),
        ));
        page_table::lemma_strip(entry(now, t, i as int));
    }
    let last = table.as_mut(mem).unwrap();
    last.set(i, leaf);
    proof {
        lemma_set_is_write(now, now, t, i as int, leaf, mem@[t]);
        assert(mem@ =~= now.insert(t, mem@[t]));
        assert(mem@.dom() =~= now.dom());
        assert(page_table::frames_of(mem@) =~= page_table::frames_of(now));
        page_table::lemma_strip(entry(mem@, t, i as int));
        page_table::lemma_strip(leaf.0);
        lemma_page_written(now, mem@, r, prefix, i as int);
        assert(gains_entry(now[t], mem@[t]));
        assert(path.len() - 1 == depth - 1);
    }
}

/// The links after a walk are those before and the steps of the walk.
proof fn lemma_with_parents(links: Map<Seq<int>, u64>, path: Seq<int>, n: int, p: Seq<int>)
    requires
        n <= path.len(),
    ensures
        with_parents(links, path, n).contains_key(p) <==> links.contains_key(p) || (1 <= p.len()
            <= n && p == path.take(p.len() as int)),
    decreases n,
{
    if n > 0 {
        lemma_with_parents(links, path, n - 1, p);
    }
}

/// A path is free by the tables where it is free by the pages and links.
pub proof fn lemma_is_free(mem: Map<u64, PageTable>, root: u64, path: Seq<int>)
    requires
        entry_path(path),
    ensures
        path_free(mem, root, path) <==> is_free(links(mem, root), pages(mem, root), path),
{
    let l = links(mem, root);
    let p = pages(mem, root);
    assert(path.take(path.len() as int) =~= path);
    assert forall|k: int| 1 <= k <= path.len() implies entry_path(#[trigger] path.take(k)) by {
        lemma_take_path(path, k);
    }
    if path_free(mem, root, path) {
        assert forall|k: int| 1 <= k <= path.len() implies !p.contains_key(
            #[trigger] path.take(k),
        ) by {
            assert(lookup(mem, root, path.take(k)) matches Some(e) ==> (k < path.len()
                ==> !page_table::entry_present(e) || !page_table::entry_huge(e)));
        }
        assert(lookup(mem, root, path.take(path.len() as int)) matches Some(e)
            ==> !page_table::entry_present(e));
    }
    if is_free(l, p, path) {
        assert forall|k: int| 1 <= k <= path.len() implies (#[trigger] lookup(
            mem,
            root,
            path.take(k),
        ) matches Some(e) ==> if k < path.len() {
            !page_table::entry_present(e) || !page_table::entry_huge(e)
        } else {
            !page_table::entry_present(e)
        }) by {
            assert(!is_page(mem, root, path.take(k)));
            assert(!is_link(mem, root, path));
        }
    }
}

/// Mapping a page leaves unrelated paths free.
pub proof fn lemma_map_keeps_free(
    links: Map<Seq<int>, u64>,
    pages: Map<Seq<int>, u64>,
    path: Seq<int>,
    leaf: u64,
    q: Seq<int>,
)
    requires
        is_free(links, pages, q),
        unrelated(path, q),
        path.len() >= 1,
    ensures
        is_free(with_parents(links, path, path.len() - 1), pages.insert(path, leaf), q),
{
    lemma_with_parents(links, path, path.len() - 1, q);
    assert forall|k: int| 1 <= k <= q.len() implies !pages.insert(path, leaf).contains_key(
        #[trigger] q.take(k),
    ) by {
        assert(q.take(k).len() == k);
    }
}

/// Mapping a page leaves no table without an entry in use.
pub proof fn lemma_map_leads_on(
    links: Map<Seq<int>, u64>,
    pages: Map<Seq<int>, u64>,
    path: Seq<int>,
    leaf: u64,
    index: int,
)
    requires
        leads_on(links, pages, index),
        path.len() >= 1,
    ensures
        leads_on(
            with_parents(links, path, path.len() - 1),
            pages.insert(path, leaf),
            index,
        ),
{
    let n = path.len() - 1;
    let next = with_parents(links, path, n);
    let mapped = pages.insert(path, leaf);
    assert forall|q: Seq<int>| #[trigger]
        next.contains_key(q) && outside(q, index) implies exists|i: int| #[trigger]
        in_use(next, mapped, q.push(i)) by {
        lemma_with_parents(links, path, n, q);
        if links.contains_key(q) {
            let i = choose|i: int| #[trigger] in_use(links, pages, q.push(i));
            lemma_with_parents(links, path, n, q.push(i));
            assert(in_use(next, mapped, q.push(i)));
        } else {
            let k = q.len() as int;
            let i = path[k];
            assert(q.push(i) =~= path.take(k + 1));
            lemma_with_parents(links, path, n, q.push(i));
            if k + 1 == path.len() {
                assert(path.take(k + 1) =~= path);
            }
            assert(in_use(next, mapped, q.push(i)));
        }
    }
}

/// Whether a page can be mapped at the end of the first `depth` of `nums`.
pub fn is_path_free(
    mem: &PageMemory,
    root: PageTablePointer,
    nums: [usize; 4],
    depth: usize,
) -> (free: bool)
    requires
        1 <= depth <= 4,
        forall|k: int| 0 <= k < 4 ==> #[trigger] nums@[k] < ENTRIES,
        page_table::entry_present(root.0),
        is_tree(mem@, page_table::entry_addr(root.0)),
    ensures
        free == path_free(
            mem@,
            page_table::entry_addr(root.0),
            Seq::new(depth as nat, |k: int| nums@[k] as int),
        ),
{
    let ghost path = Seq::new(depth as nat, |k: int| nums@[k] as int);
    let ghost r = page_table::entry_addr(root.0);
    assert(entry_path(path));
    let mut table = root;
    let mut d: usize = 0;
    assert(path.take(0) =~= Seq::<int>::empty());
    loop
        invariant
            1 <= depth <= 4,
            d < depth,
            forall|k: int| 0 <= k < 4 ==> #[trigger] nums@[k] < ENTRIES,
            path == Seq::new(depth as nat, |k: int| nums@[k] as int),
            entry_path(path),
            r == page_table::entry_addr(root.0),
            page_table::entry_present(table.0),
            table_at(mem@, r, path.take(d as int)) == Some(page_table::entry_addr(table.0)),
            is_tree(mem@, r),
            forall|k: int|
                1 <= k <= d ==> (#[trigger] lookup(mem@, r, path.take(k)) matches Some(e)
                    ==> !page_table::entry_present(e) || !page_table::entry_huge(e)),
        decreases depth - d,
    {
        let i: usize = nums[d];
        let ghost prefix = path.take(d as int);
        let ghost t = page_table::entry_addr(table.0);
        proof {
            assert(table_path(prefix)) by {
                assert forall|k: int| 0 <= k < prefix.len() implies 0 <= #[trigger] prefix[k]
                    < ENTRIES by {
                    assert(prefix[k] == path[k]);
                }
            }
            assert(mem@.contains_key(t));
            assert(path.take(d + 1) =~= prefix.push(i as int));
            lemma_push_parts(prefix, i as int);
            lemma_push_path(prefix, i as int);
            assert(lookup(mem@, r, path.take(d + 1)) == Some(
                page_table::strip(entry(mem@, t, i as int)),
            ));
            page_table::lemma_strip(entry(mem@, t, i as int));
            lemma_flags_huge(entry(mem@, t, i as int));
        }
        let current = table.as_ref(mem).unwrap();
        let pointer = current.entries[i];
        if !current.present(i) {
            assert forall|k: int| d + 1 < k <= depth implies (#[trigger] lookup(
                mem@,
                r,
                path.take(k),
            )) is None by {
                lemma_no_walk(mem@, r, path, d + 1, k - 1);
                lemma_take_path(path, k);
            }
            return true;
        }
        if d == depth - 1 {
            return false;
        }
        if pointer.flags().contains(PageTableFlags::HUGE) {
            return false;
        }
        table = pointer;
        d = d + 1;
    }
}

/// A walk that ends does not go on.
proof fn lemma_no_walk(
    mem: Map<u64, PageTable>,
    root: u64,
    path: Seq<int>,
    k: int,
    n: int,
)
    requires
        entry_path(path),
        1 <= k <= n <= path.len(),
        table_at(mem, root, path.take(k)) is None,
    ensures
        table_at(mem, root, path.take(n)) is None,
    decreases n,
{
    if n > k {
        lemma_no_walk(mem, root, path, k, n - 1);
        lemma_take_path(path, n);
    }
}

/// The table that the entry at the end of the first `n` steps of `path` lies in.
pub open spec fn table_of(mem: Map<u64, PageTable>, root: u64, path: Seq<int>, n: int) -> u64 {
    table_at(mem, root, path.take(n - 1))->0
}

/// The tables that are dropped where the entry at the end of the first `n` steps of `path`
/// goes: those further along the path.
pub open spec fn cut_tables(mem: Map<u64, PageTable>, root: u64, path: Seq<int>, n: int) -> Set<u64>
    decreases path.len() - n,
{
    if n >= path.len() {
        Set::empty()
    } else {
        cut_tables(mem, root, path, n + 1).insert(table_of(mem, root, path, n + 1))
    }
}

/// The frames of the tables that are dropped, the last of the path first.
pub open spec fn cut_frames(
    mem: Map<u64, PageTable>,
    root: u64,
    path: Seq<int>,
    n: int,
) -> Seq<Allocation>
    decreases path.len() - n,
{
    if n >= path.len() {
        Seq::empty()
    } else {
        cut_frames(mem, root, path, n + 1).push(mem[table_of(mem, root, path, n + 1)].page_frame())
    }
}

/// The links that go with the entry at the end of the first `n` steps of `path`.
pub open spec fn cut_links(path: Seq<int>, n: int) -> Set<Seq<int>> {
    Set::new(|p: Seq<int>| n <= p.len() < path.len() && is_prefix(p, path))
}

/// What cutting a path after `n` steps does to memory: the tables further along are gone,
/// the entry at the end of these steps is cleared, and the rest reads as before.
pub open spec fn is_cut(
    mem: Map<u64, PageTable>,
    next: Map<u64, PageTable>,
    root: u64,
    path: Seq<int>,
    n: int,
) -> bool {
    let t = table_of(mem, root, path, n);
    &&& 1 <= n <= path.len()
    &&& next.dom() == mem.dom().difference(cut_tables(mem, root, path, n))
    &&& next.contains_key(t)
    &&& forall|x: u64| #![trigger next[x]] next.contains_key(x) && x != t ==> next[x] == mem[x]
    &&& !page_table::entry_present(entry(next, t, path[n - 1]))
    &&& forall|i: int|
        0 <= i < ENTRIES && i != path[n - 1] ==> page_table::strip(#[trigger] entry(next, t, i))
            == page_table::strip(entry(mem, t, i))
    &&& forall|k: int, i: int|
        n < k <= path.len() && 0 <= i < ENTRIES && page_table::entry_present(
            #[trigger] entry(mem, #[trigger] table_of(mem, root, path, k), i),
        ) ==> i == path[k - 1]
}

/// The tables that are dropped are those that the walk passes.
pub proof fn lemma_cut_tables(mem: Map<u64, PageTable>, root: u64, path: Seq<int>, n: int, t: u64)
    requires
        n >= 1,
    ensures
        cut_tables(mem, root, path, n).contains(t) <==> exists|k: int|
            n < k <= path.len() && #[trigger] table_of(mem, root, path, k) == t,
    decreases path.len() - n,
{
    if n < path.len() {
        lemma_cut_tables(mem, root, path, n + 1, t);
        if table_of(mem, root, path, n + 1) == t {
            assert(cut_tables(mem, root, path, n).contains(t));
        }
    }
}

/// The walk to a page passes a table at every step.
pub proof fn lemma_page_way(mem: Map<u64, PageTable>, root: u64, path: Seq<int>, k: int)
    requires
        is_page(mem, root, path),
        is_tree(mem, root),
        1 <= k <= path.len(),
    ensures
        table_path(path.take(k - 1)),
        table_at(mem, root, path.take(k - 1)) == Some(table_of(mem, root, path, k)),
        mem.contains_key(table_of(mem, root, path, k)),
        page_table::entry_present(entry(mem, table_of(mem, root, path, k), path[k - 1])),
{
    lemma_take_path(path, k);
    let above = path.take(k - 1);
    assert(valid_path(above)) by {
        assert forall|j: int| 0 <= j < above.len() implies 0 <= #[trigger] above[j] < ENTRIES by {
            assert(above[j] == path[j]);
        }
    }
    assert(path.drop_last().take(k - 1) =~= above);
    lemma_walk_passes(mem, root, above, path.drop_last());
    if k < path.len() {
        assert(path.drop_last().take(k) =~= path.take(k));
        lemma_walk_passes(mem, root, path.take(k), path.drop_last());
    } else {
        assert(path.take(k) =~= path);
        page_table::lemma_strip(entry(mem, table_of(mem, root, path, k), path[k - 1]));
    }
}

/// The walk to a page passes links.
pub proof fn lemma_way_is_link(mem: Map<u64, PageTable>, root: u64, path: Seq<int>, k: int)
    requires
        is_page(mem, root, path),
        is_tree(mem, root),
        1 <= k < path.len(),
    ensures
        is_link(mem, root, path.take(k)),
{
    lemma_page_way(mem, root, path, k + 1);
    lemma_take_path(path, k);
    lemma_page_way(mem, root, path, k);
    page_table::lemma_strip(entry(mem, table_of(mem, root, path, k), path.take(k).last()));
}

/// Behind the cut there was nothing but the way to the page.
proof fn lemma_follow(
    mem: Map<u64, PageTable>,
    next: Map<u64, PageTable>,
    root: u64,
    path: Seq<int>,
    n: int,
    q: Seq<int>,
)
    requires
        is_tree(mem, root),
        is_page(mem, root, path),
        is_cut(mem, next, root, path, n),
        entry_path(q),
        is_prefix(path.take(n), q),
        lookup(mem, root, q) is Some,
        page_table::entry_present(lookup(mem, root, q)->0),
    ensures
        q.len() <= path.len(),
        q == path.take(q.len() as int),
    decreases q.len(),
{
    if q.len() == n {
        assert(q.take(n) =~= q);
    } else {
        let q1 = q.drop_last();
        lemma_drop_last_path(q);
        let x = table_at(mem, root, q1)->0;
        assert(q1.take(n) =~= q.take(n));
        lemma_drop_last_path(q1);
        let above = table_at(mem, root, q1.drop_last())->0;
        page_table::lemma_strip(entry(mem, above, q1.last()));
        lemma_follow(mem, next, root, path, n, q1);
        let k = q1.len() as int;
        assert(q1.len() < path.len()) by {
            if q1.len() == path.len() {
                assert(path.take(k) =~= path);
                page_table::lemma_strip(entry(mem, above, path.last()));
            }
        }
        assert(x == table_of(mem, root, path, k + 1));
        page_table::lemma_strip(entry(mem, x, q.last()));
        assert(page_table::entry_present(entry(mem, table_of(mem, root, path, k + 1), q.last())));
        assert(q =~= path.take(k + 1));
    }
}

proof fn lemma_cut_table_at(
    mem: Map<u64, PageTable>,
    next: Map<u64, PageTable>,
    root: u64,
    path: Seq<int>,
    n: int,
    q: Seq<int>,
)
    requires
        is_tree(mem, root),
        is_page(mem, root, path),
        is_cut(mem, next, root, path, n),
        table_path(q),
    ensures
        table_at(next, root, q) == if is_prefix(path.take(n), q) {
            None
        } else {
            table_at(mem, root, q)
        },
        !is_prefix(path.take(n), q) && table_at(mem, root, q) is Some ==> next.contains_key(
            table_at(mem, root, q)->0,
        ),
    decreases q.len(),
{
    let cut = path.take(n);
    let t = table_of(mem, root, path, n);
    lemma_page_way(mem, root, path, n);
    lemma_take_path(path, n);
    if !is_prefix(cut, q) && table_at(mem, root, q) is Some {
        let x = table_at(mem, root, q)->0;
        assert(mem.contains_key(x));
        lemma_cut_tables(mem, root, path, n, x);
        if cut_tables(mem, root, path, n).contains(x) {
            let k = choose|k: int|
                n < k <= path.len() && #[trigger] table_of(mem, root, path, k) == x;
            lemma_page_way(mem, root, path, k);
            assert(q == path.take(k - 1));
            assert(q.take(n) =~= cut);
        }
        assert(next.dom().contains(x));
    }
    if q.len() > 0 {
        let q1 = q.drop_last();
        lemma_drop_last_path(q);
        lemma_cut_table_at(mem, next, root, path, n, q1);
        if is_prefix(cut, q1) {
            assert(q.take(n) =~= q1.take(n));
        } else if is_prefix(cut, q) {
            if q.len() > n {
                assert(q1.take(n) =~= q.take(n));
            }
            assert(q.take(n) =~= q);
            assert(q1 == path.take(n - 1));
        } else {
            match table_at(mem, root, q1) {
                Some(x) => {
                    assert(mem.contains_key(x));
                    assert(next.contains_key(x));
                    if x == t {
                        assert(q1 == path.take(n - 1));
                        if q.last() == path[n - 1] {
                            assert(q =~= cut);
                            assert(q.take(n) =~= cut);
                        }
                        lemma_same_strip_same_child(mem, next, x, q.last());
                    }
                },
                None => {},
            }
        }
    }
}

/// Cutting a path takes its page away and the links that led to nothing else, and keeps the
/// tree.
pub proof fn lemma_cut(
    mem: Map<u64, PageTable>,
    next: Map<u64, PageTable>,
    root: u64,
    path: Seq<int>,
    n: int,
)
    requires
        is_tree(mem, root),
        is_page(mem, root, path),
        is_cut(mem, next, root, path, n),
    ensures
        is_tree(next, root),
        pages(next, root) == pages(mem, root).remove(path),
        links(next, root) == links(mem, root).remove_keys(cut_links(path, n)),
{
    let cut = path.take(n);
    let t = table_of(mem, root, path, n);
    lemma_page_way(mem, root, path, n);
    lemma_take_path(path, n);
    assert forall|q: Seq<int>| #[trigger] table_path(q) implies table_at(next, root, q)
        == if is_prefix(cut, q) {
        None
    } else {
        table_at(mem, root, q)
    } by {
        lemma_cut_table_at(mem, next, root, path, n, q);
    }
    assert forall|p: Seq<int>|
        valid_path(p) && p.len() <= 3 && (#[trigger] table_at(
            next,
            root,
            p,
        )) is Some implies next.contains_key(table_at(next, root, p)->0) by {
        assert(table_path(p));
        lemma_cut_table_at(mem, next, root, path, n, p);
    }
    assert forall|p: Seq<int>, q: Seq<int>|
        valid_path(p) && valid_path(q) && p.len() <= 3 && q.len() <= 3 && (#[trigger] table_at(
            next,
            root,
            p,
        )) is Some && table_at(next, root, p) == #[trigger] table_at(
            next,
            root,
            q,
        ) implies p == q by {
        assert(table_path(p) && table_path(q));
        assert(table_at(mem, root, p) == table_at(mem, root, q));
    }
    assert forall|q: Seq<int>| #[trigger] entry_path(q) implies if is_prefix(cut, q) {
        &&& lookup(next, root, q) matches Some(e) ==> !page_table::entry_present(e)
        &&& lookup(mem, root, q) matches Some(e) ==> (page_table::entry_present(e) ==> q.len()
            <= path.len() && q == path.take(q.len() as int))
    } else {
        lookup(next, root, q) == lookup(mem, root, q)
    } by {
        let q1 = q.drop_last();
        lemma_drop_last_path(q);
        assert(table_path(q1));
        if is_prefix(cut, q) {
            if q.len() > n {
                assert(q1.take(n) =~= q.take(n));
            } else {
                assert(q.take(n) =~= q);
                assert(q1 == path.take(n - 1));
                page_table::lemma_strip(entry(next, t, path[n - 1]));
            }
            if lookup(mem, root, q) is Some && page_table::entry_present(lookup(mem, root, q)->0) {
                lemma_follow(mem, next, root, path, n, q);
            }
        } else {
            if is_prefix(cut, q1) {
                assert(q.take(n) =~= q1.take(n));
            }
            lemma_cut_table_at(mem, next, root, path, n, q1);
            match table_at(mem, root, q1) {
                Some(x) => {
                    assert(next.contains_key(x));
                    if x == t {
                        assert(q1 == path.take(n - 1));
                        if q.last() == path[n - 1] {
                            assert(q =~= cut);
                            assert(q.take(n) =~= cut);
                        }
                    }
                },
                None => {},
            }
        }
    }
    assert forall|q: Seq<int>| entry_path(q) && q.len() < path.len() && #[trigger] is_prefix(
        q,
        path,
    ) implies is_link(mem, root, q) by {
        let k = q.len() as int;
        lemma_page_way(mem, root, path, k + 1);
        lemma_take_path(path, k);
        let above = table_of(mem, root, path, k);
        lemma_page_way(mem, root, path, k);
        page_table::lemma_strip(entry(mem, above, q.last()));
    }
    assert(path.take(path.len() as int) =~= path);
    assert(path.take(n) =~= cut);
    assert(pages(next, root) =~= pages(mem, root).remove(path)) by {
        assert forall|q: Seq<int>| is_page(next, root, q) <==> is_page(mem, root, q) && q
            != path by {
            if entry_path(q) {
                if is_prefix(cut, q) && is_page(mem, root, q) {
                    if q.len() < path.len() {
                        assert(is_prefix(q, path));
                        assert(is_link(mem, root, q));
                    }
                }
            }
        }
    }
    assert(links(next, root) =~= links(mem, root).remove_keys(cut_links(path, n))) by {
        assert forall|q: Seq<int>| is_link(next, root, q) <==> is_link(mem, root, q) && !cut_links(
            path,
            n,
        ).contains(q) by {
            if entry_path(q) {
                if is_prefix(cut, q) {
                    if is_link(mem, root, q) {
                        if q.len() == path.len() {
                            assert(q == path);
                        }
                        assert(is_prefix(q, path));
                    }
                } else if cut_links(path, n).contains(q) {
                    assert(q.take(n) =~= path.take(n));
                }
            }
        }
    }
}

/// An entry of a table is in use where the path to it ends at a page or a link.
proof fn lemma_entry_in_use(mem: Map<u64, PageTable>, root: u64, q: Seq<int>, i: int)
    requires
        table_path(q),
        table_at(mem, root, q) is Some,
    ensures
        in_use(links(mem, root), pages(mem, root), q.push(i)) <==> 0 <= i < ENTRIES
            && page_table::entry_present(entry(mem, table_at(mem, root, q)->0, i)),
{
    let c = q.push(i);
    lemma_push_parts(q, i);
    page_table::lemma_strip(entry(mem, table_at(mem, root, q)->0, i));
    if 0 <= i < ENTRIES {
        lemma_push_path(q, i);
    } else {
        assert(c[c.len() - 1] == i);
        assert(!valid_path(c));
    }
}

/// Unmaps a page: walks along the first `depth` of `nums`, clears the entry that the walk
/// ends at, and drops the tables that have no entry in use any more. The root table stays.
pub fn unmap_page<T: FrameAllocator>(
    mem: &mut PageMemory,
    root: PageTablePointer,
    nums: [usize; 4],
    depth: usize,
    allocer: &mut T,
)
    requires
        1 <= depth <= 4,
        forall|k: int| 0 <= k < 4 ==> #[trigger] nums@[k] < ENTRIES,
        page_table::entry_present(root.0),
        is_tree(old(mem)@, page_table::entry_addr(root.0)),
        own_frames(old(mem)@),
        page_table::frames_of(old(mem)@).submap_of(old(allocer).live()),
        is_page(
            old(mem)@,
            page_table::entry_addr(root.0),
            Seq::new(depth as nat, |k: int| nums@[k] as int),
        ),
    ensures
        unmaps_page(
            TableState {
                tables: old(mem)@,
                live: old(allocer).live(),
                returned: old(allocer).returned(),
            },
            TableState {
                tables: final(mem)@,
                live: final(allocer).live(),
                returned: final(allocer).returned(),
            },
            page_table::entry_addr(root.0),
            Seq::new(depth as nat, |k: int| nums@[k] as int),
        ),
{
    let ghost path = Seq::new(depth as nat, |k: int| nums@[k] as int);
    let ghost r = page_table::entry_addr(root.0);
    let ghost before = mem@;
    let ghost l = links(before, r);
    let ghost p = pages(before, r);
    assert(path.take(0) =~= Seq::<int>::empty());
    let mut tables: [PageTablePointer; 4] = [root; 4];
    let mut d: usize = 1;
    while d < depth
        invariant
            1 <= d <= depth <= 4,
            mem@ == before,
            forall|k: int| 0 <= k < 4 ==> #[trigger] nums@[k] < ENTRIES,
            path == Seq::new(depth as nat, |k: int| nums@[k] as int),
            is_tree(before, r),
            is_page(before, r, path),
            forall|k: int|
                0 <= k < d ==> {
                    &&& page_table::entry_present((#[trigger] tables@[k]).0)
                    &&& table_at(before, r, path.take(k)) == Some(
                        page_table::entry_addr(tables@[k].0),
                    )
                },
        decreases depth - d,
    {
        let ghost above = tables@;
        proof {
            lemma_page_way(before, r, path, d as int);
            lemma_page_way(before, r, path, d + 1);
            lemma_take_path(path, d as int);
            assert(page_table::entry_present(tables@[d - 1].0));
        }
        let parent = tables[d - 1];
        let next = parent.as_ref(mem).unwrap().get(nums[d - 1]);
        tables[d] = next;
        proof {
            assert(table_of(before, r, path, d as int) == page_table::entry_addr(parent.0));
            assert(child(before, page_table::entry_addr(parent.0), nums@[d - 1] as int) is Some);
        }
        d = d + 1;
    }
    let mut a: usize = depth;
    assert(before.dom().difference(cut_tables(before, r, path, depth as int)) =~= before.dom());
    assert(allocer.live().remove_keys(cut_tables(before, r, path, depth as int))
        =~= allocer.live());
    assert(allocer.returned() + cut_frames(before, r, path, depth as int) =~= allocer.returned());
    loop
        invariant_except_break
            mem@.dom() == before.dom().difference(cut_tables(before, r, path, a as int)),
            forall|x: u64| #![trigger mem@[x]] mem@.contains_key(x) ==> mem@[x] == before[x],
        invariant
            1 <= a <= depth <= 4,
            forall|k: int| 0 <= k < 4 ==> #[trigger] nums@[k] < ENTRIES,
            path == Seq::new(depth as nat, |k: int| nums@[k] as int),
            r == page_table::entry_addr(root.0),
            is_tree(before, r),
            is_page(before, r, path),
            own_frames(before),
            page_table::frames_of(before).submap_of(old(allocer).live()),
            l == links(before, r),
            p == pages(before, r),
            forall|k: int|
                0 <= k < depth ==> {
                    &&& page_table::entry_present((#[trigger] tables@[k]).0)
                    &&& table_at(before, r, path.take(k)) == Some(
                        page_table::entry_addr(tables@[k].0),
                    )
                },
            cut_level(l, p, path, depth as int) == cut_level(l, p, path, a as int),
            forall|k: int| a < k <= depth ==> #[trigger] only_used(l, p, path, k),
            allocer.live() == old(allocer).live().remove_keys(
                cut_tables(before, r, path, a as int),
            ),
            allocer.returned() == old(allocer).returned() + cut_frames(
                before,
                r,
                path,
                a as int,
            ),
        ensures
            a == cut_level(l, p, path, depth as int),
            is_cut(before, mem@, r, path, a as int),
            mem@[table_of(before, r, path, a as int)].is_cleared(
                before[table_of(before, r, path, a as int)],
                path[a - 1],
            ),
        decreases a,
    {
        let ghost t = table_of(before, r, path, a as int);
        let ghost now = mem@;
        let ghost index = path[a - 1];
        proof {
            lemma_page_way(before, r, path, a as int);
            assert(page_table::entry_present(tables@[a - 1].0));
            assert(t == page_table::entry_addr(tables@[a - 1].0));
            lemma_cut_tables(before, r, path, a as int, t);
            if cut_tables(before, r, path, a as int).contains(t) {
                let k = choose|k: int|
                    a < k <= path.len() && #[trigger] table_of(before, r, path, k) == t;
                lemma_page_way(before, r, path, k);
                assert(path.take(a - 1).len() == path.take(k - 1).len());
            }
            assert(now.contains_key(t));
            assert(now[t] == before[t]);
        }
        let pointer = tables[a - 1];
        let table = pointer.as_mut(mem).unwrap();
        table.clear(nums[a - 1]);
        let used = a == 1 || table.has_entries();
        let ghost after = *table;
        proof {
            page_table::lemma_clear_counts(before[t], after, index);
            assert forall|i: int| in_use(
                l,
                p,
                #[trigger] path.take(a - 1).push(i),
            ) <==> 0 <= i < ENTRIES && page_table::entry_present(before[t].entries@[i].0) by {
                lemma_entry_in_use(before, r, path.take(a - 1), i);
            }
            if a > 1 && used {
                let i = choose|i: int|
                    0 <= i < ENTRIES && page_table::entry_present((#[trigger] after.entries@[i]).0);
                assert(in_use(l, p, path.take(a - 1).push(i)));
                assert(!only_used(l, p, path, a as int));
            }
            if !used {
                assert forall|i: int| #[trigger] in_use(
                    l,
                    p,
                    path.take(a - 1).push(i),
                ) implies i == path[a - 1] by {
                    if i != index {
                        assert(!page_table::entry_present(after.entries@[i].0));
                    }
                }
            }
        }
        if used {
            proof {
                assert(mem@ =~= now.insert(t, after));
                assert forall|k: int, i: int|
                    a < k <= path.len() && 0 <= i < ENTRIES && page_table::entry_present(
                        #[trigger] entry(before, #[trigger] table_of(before, r, path, k), i),
                    ) implies i == path[k - 1] by {
                    lemma_page_way(before, r, path, k);
                    lemma_entry_in_use(before, r, path.take(k - 1), i);
                    assert(only_used(l, p, path, k));
                    assert(in_use(l, p, path.take(k - 1).push(i)));
                }
                assert(mem@.dom() =~= now.dom());
            }
            break;
        }
        proof {
            assert(page_table::frames_of(before).dom().contains(t));
            assert(old(allocer).live().dom().contains(t));
            assert(before[t].frame.phys == t);
        }
        table.dealloc(allocer);
        mem.clear(pointer.0 & page_table::PAGE_ADDR_BITMASK);
        proof {
            assert(mem@ =~= now.remove(t));
            assert(cut_tables(before, r, path, a - 1) =~= cut_tables(
                before,
                r,
                path,
                a as int,
            ).insert(t));
            assert(mem@.dom() =~= before.dom().difference(cut_tables(before, r, path, a - 1)));
            assert(before[t].frame.phys == t);
            assert(allocer.live() =~= old(allocer).live().remove_keys(
                cut_tables(before, r, path, a - 1),
            ));
            assert(allocer.returned() =~= old(allocer).returned() + cut_frames(
                before,
                r,
                path,
                a - 1,
            ));
        }
        a = a - 1;
    }
    proof {
        lemma_cut(before, mem@, r, path, a as int);
        assert(table_at(mem@, r, Seq::empty()) == Some(r));
        lemma_cut_gives_back(before, mem@, r, path, a as int, old(allocer).returned());
        let dropped = cut_tables(before, r, path, a as int);
        assert forall|t: u64| #[trigger] dropped.contains(t) implies before.dom().contains(t) by {
            lemma_cut_tables(before, r, path, a as int, t);
            let k = choose|k: int|
                a < k <= path.len() && #[trigger] table_of(before, r, path, k) == t;
            lemma_page_way(before, r, path, k);
        }
        assert(dropped.subset_of(before.dom()));
        assert(path.len() == depth);
    }
}

/// Where a path is cut below the root, another entry is in use in the table that the entry
/// goes from.
proof fn lemma_cut_level(
    links: Map<Seq<int>, u64>,
    pages: Map<Seq<int>, u64>,
    path: Seq<int>,
    n: int,
)
    requires
        n >= 1,
    ensures
        1 <= cut_level(links, pages, path, n) <= n,
        cut_level(links, pages, path, n) >= 2 ==> !only_used(
            links,
            pages,
            path,
            cut_level(links, pages, path, n),
        ),
    decreases n,
{
    if n >= 2 {
        lemma_cut_level(links, pages, path, n - 1);
    }
}

/// Unmapping a page leaves no table without an entry in use.
pub proof fn lemma_unmap_leads_on(
    links: Map<Seq<int>, u64>,
    pages: Map<Seq<int>, u64>,
    path: Seq<int>,
    index: int,
)
    requires
        leads_on(links, pages, index),
        path.len() >= 1,
    ensures
        leads_on(without_page(links, pages, path), pages.remove(path), index),
{
    let n = cut_level(links, pages, path, path.len() as int);
    lemma_cut_level(links, pages, path, path.len() as int);
    let l2 = without_page(links, pages, path);
    let p2 = pages.remove(path);
    assert(path.take(path.len() as int) =~= path);
    assert forall|q: Seq<int>| #[trigger]
        l2.contains_key(q) && outside(q, index) implies exists|i: int| #[trigger]
        in_use(l2, p2, q.push(i)) by {
        assert(links.contains_key(q));
        let i = choose|i: int| #[trigger] in_use(links, pages, q.push(i));
        let c = q.push(i);
        if !in_use(l2, p2, c) {
            let k = c.len() as int;
            assert(is_prefix(c, path));
            assert(k >= n);
            assert(q =~= path.take(k - 1)) by {
                assert(path.take(k) == c);
                assert(path.take(k).drop_last() =~= path.take(k - 1));
                assert(c.drop_last() =~= q);
            }
            assert(is_prefix(q, path));
            assert(!cut_links(path, n).contains(q));
            assert(k == n);
            let other = choose|j: int| #[trigger]
                in_use(links, pages, path.take(n - 1).push(j)) && j != path[n - 1];
            let d = q.push(other);
            assert(d[n - 1] == other);
            assert(path.take(n)[n - 1] == path[n - 1]);
            assert(!is_prefix(d, path));
            assert(d != path);
            assert(in_use(l2, p2, d));
        }
    }
}

/// Whether what was given back are the frames of the tables that are gone, each of them
/// once and as it was handed out.
pub open spec fn gave_back(
    mem: Map<u64, PageTable>,
    next: Map<u64, PageTable>,
    before: Seq<Allocation>,
    after: Seq<Allocation>,
) -> bool {
    &&& before.len() <= after.len()
    &&& after.take(before.len() as int) == before
    &&& forall|i: int|
        before.len() <= i < after.len() ==> {
            let t = (#[trigger] after[i]).phys;
            &&& mem.contains_key(t)
            &&& !next.contains_key(t)
            &&& after[i] == mem[t].page_frame()
        }
    &&& forall|i: int, j: int|
        before.len() <= i < j < after.len() ==> (#[trigger] after[i]).phys != (
        #[trigger] after[j]).phys
    &&& forall|t: u64| #[trigger]
        mem.contains_key(t) && !next.contains_key(t) ==> exists|i: int|
            before.len() <= i < after.len() && (#[trigger] after[i]).phys == t
}

/// The frames of the tables that are dropped are given back once each.
proof fn lemma_cut_frames(mem: Map<u64, PageTable>, root: u64, path: Seq<int>, n: int)
    requires
        is_tree(mem, root),
        own_frames(mem),
        is_page(mem, root, path),
        1 <= n <= path.len(),
    ensures
        cut_frames(mem, root, path, n).len() == path.len() - n,
        forall|i: int|
            0 <= i < path.len() - n ==> {
                let t = table_of(mem, root, path, path.len() - i);
                &&& #[trigger] cut_frames(mem, root, path, n)[i] == mem[t].page_frame()
                &&& mem.contains_key(t)
                &&& cut_frames(mem, root, path, n)[i].phys == t
            },
    decreases path.len() - n,
{
    if n < path.len() {
        lemma_cut_frames(mem, root, path, n + 1);
        lemma_page_way(mem, root, path, n + 1);
        let t = table_of(mem, root, path, n + 1);
        assert(mem[t].frame.phys == t);
    }
}

proof fn lemma_cut_gives_back(
    mem: Map<u64, PageTable>,
    next: Map<u64, PageTable>,
    root: u64,
    path: Seq<int>,
    n: int,
    before: Seq<Allocation>,
)
    requires
        is_tree(mem, root),
        own_frames(mem),
        is_page(mem, root, path),
        is_cut(mem, next, root, path, n),
    ensures
        gave_back(mem, next, before, before + cut_frames(mem, root, path, n)),
{
    let fs = cut_frames(mem, root, path, n);
    let after = before + fs;
    lemma_cut_frames(mem, root, path, n);
    assert(after.take(before.len() as int) =~= before);
    assert forall|i: int| before.len() <= i < after.len() implies {
        let t = (#[trigger] after[i]).phys;
        &&& mem.contains_key(t)
        &&& !next.contains_key(t)
        &&& after[i] == mem[t].page_frame()
    } by {
        let j = i - before.len();
        assert(after[i] == fs[j]);
        let t = table_of(mem, root, path, path.len() - j);
        lemma_cut_tables(mem, root, path, n, t);
        assert(!next.dom().contains(t));
    }
    assert forall|i: int, j: int| before.len() <= i < j < after.len() implies (
    #[trigger] after[i]).phys != (#[trigger] after[j]).phys by {
        let k = path.len() - (i - before.len());
        let l = path.len() - (j - before.len());
        assert(after[i] == fs[i - before.len()] && after[j] == fs[j - before.len()]);
        lemma_page_way(mem, root, path, k);
        lemma_page_way(mem, root, path, l);
        if after[i].phys == after[j].phys {
            assert(path.take(k - 1).len() == path.take(l - 1).len());
        }
    }
    assert forall|t: u64| #[trigger]
        mem.contains_key(t) && !next.contains_key(t) implies exists|i: int|
        before.len() <= i < after.len() && (#[trigger] after[i]).phys == t by {
        assert(mem.dom().contains(t) && !next.dom().contains(t));
        lemma_cut_tables(mem, root, path, n, t);
        let k = choose|k: int|
            n < k <= path.len() && #[trigger] table_of(mem, root, path, k) == t;
        let i = before.len() + (path.len() - k);
        assert(after[i] == fs[path.len() - k]);
    }
}

/// What is given back in two steps.
pub proof fn lemma_gave_back_twice(
    mem: Map<u64, PageTable>,
    mid: Map<u64, PageTable>,
    next: Map<u64, PageTable>,
    a: Seq<Allocation>,
    b: Seq<Allocation>,
    c: Seq<Allocation>,
)
    requires
        gave_back(mem, mid, a, b),
        gave_back(mid, next, b, c),
        next.dom().subset_of(mid.dom()),
        mid.dom().subset_of(mem.dom()),
        forall|t: u64| mid.contains_key(t) ==> (#[trigger] mid[t]).frame == mem[t].frame,
    ensures
        gave_back(mem, next, a, c),
{
    assert(c.take(a.len() as int) =~= b.take(a.len() as int)) by {
        assert(c.take(b.len() as int).take(a.len() as int) =~= c.take(a.len() as int));
    }
    assert forall|i: int| 0 <= i < b.len() implies c[i] == b[i] by {
        assert(c.take(b.len() as int)[i] == c[i]);
    }
    assert forall|i: int| a.len() <= i < c.len() implies {
        let t = (#[trigger] c[i]).phys;
        &&& mem.contains_key(t)
        &&& !next.contains_key(t)
        &&& c[i] == mem[t].page_frame()
    } by {
        if i < b.len() {
            assert(c[i] == b[i]);
            if next.dom().contains(c[i].phys) {
                assert(mid.dom().contains(c[i].phys));
            }
        } else {
            let t = c[i].phys;
            assert(mid.dom().contains(t));
            assert(mem.dom().contains(t));
            assert(mid[t].frame == mem[t].frame);
        }
    }
    assert forall|i: int, j: int| a.len() <= i < j < c.len() implies (#[trigger] c[i]).phys != (
    #[trigger] c[j]).phys by {
        if j < b.len() {
            assert(c[i] == b[i] && c[j] == b[j]);
        } else if i < b.len() {
            assert(c[i] == b[i]);
            assert(!mid.contains_key(b[i].phys));
            assert(mid.contains_key(c[j].phys));
        }
    }
    assert forall|t: u64| #[trigger]
        mem.contains_key(t) && !next.contains_key(t) implies exists|i: int|
        a.len() <= i < c.len() && (#[trigger] c[i]).phys == t by {
        if mid.contains_key(t) {
            let i = choose|i: int| b.len() <= i < c.len() && (#[trigger] c[i]).phys == t;
        } else {
            let i = choose|i: int| a.len() <= i < b.len() && (#[trigger] b[i]).phys == t;
            assert(c[i] == b[i]);
        }
    }
}

/// Whether an entry refers to a table below which the tables form a tree of `depth`
/// steps, or to no table.
pub open spec fn refers_to_tree(mem: Map<u64, PageTable>, entry: u64, depth: int) -> bool {
    page_table::entry_present(entry) && !page_table::entry_huge(entry) ==> is_tree_to(
        mem,
        page_table::entry_addr(entry),
        depth,
    )
}

/// Where a walk leads in a root table that has one entry.
proof fn lemma_single_entry_walk(
    mem: Map<u64, PageTable>,
    next: Map<u64, PageTable>,
    root: u64,
    index: int,
    path: Seq<int>,
)
    requires
        !mem.contains_key(root),
        next == mem.insert(root, next[root]),
        0 <= index < ENTRIES,
        forall|i: int|
            0 <= i < ENTRIES && i != index ==> !page_table::entry_present(
                #[trigger] entry(next, root, i),
            ),
        refers_to_tree(mem, entry(next, root, index), 2),
        table_path(path),
    ensures
        table_at(next, root, path) == if path.len() == 0 {
            Some(root)
        } else if path[0] != index || child(next, root, index) is None {
            None
        } else {
            table_at(mem, page_table::entry_addr(entry(next, root, index)), path.skip(1))
        },
    decreases path.len(),
{
    let h = page_table::entry_addr(entry(next, root, index));
    assert(next.contains_key(root));
    if path.len() > 0 {
        let p1 = path.drop_last();
        lemma_drop_last_path(path);
        lemma_single_entry_walk(mem, next, root, index, p1);
        if p1.len() == 0 {
            assert(path.skip(1) =~= Seq::<int>::empty());
            assert(path[0] == path.last());
            if path[0] != index {
                assert(!page_table::entry_present(entry(next, root, path[0])));
            }
        } else {
            assert(p1[0] == path[0]);
            if path[0] == index && child(next, root, index) is Some {
                assert(path.skip(1).drop_last() =~= p1.skip(1));
                assert(path.skip(1).last() == path.last());
                assert(valid_path(p1.skip(1))) by {
                    assert forall|k: int| 0 <= k < p1.skip(1).len() implies 0
                        <= #[trigger] p1.skip(1)[k] < ENTRIES by {
                        assert(p1.skip(1)[k] == path[k + 1]);
                    }
                }
                match table_at(mem, h, p1.skip(1)) {
                    Some(x) => {
                        assert(mem.contains_key(x));
                        assert(x != root);
                        assert(next[x] == mem[x]);
                    },
                    None => {},
                }
            }
        }
    }
}

/// A new root table with one entry, which refers to a tree, makes a tree.
pub proof fn lemma_single_entry_tree(
    mem: Map<u64, PageTable>,
    next: Map<u64, PageTable>,
    root: u64,
    index: int,
)
    requires
        !mem.contains_key(root),
        next == mem.insert(root, next[root]),
        0 <= index < ENTRIES,
        forall|i: int|
            0 <= i < ENTRIES && i != index ==> !page_table::entry_present(
                #[trigger] entry(next, root, i),
            ),
        refers_to_tree(mem, entry(next, root, index), 2),
    ensures
        is_tree(next, root),
        forall|q: Seq<int>| #[trigger]
            outside(q, index) ==> !pages(next, root).contains_key(q) && !links(
                next,
                root,
            ).contains_key(q),
{
    assert forall|q: Seq<int>| #[trigger]
        table_path(q) && outside(q, index) implies table_at(next, root, q) is None by {
        lemma_single_entry_walk(mem, next, root, index, q);
    }
    assert forall|q: Seq<int>| #[trigger] outside(q, index) implies !pages(
        next,
        root,
    ).contains_key(q) && !links(next, root).contains_key(q) by {
        if entry_path(q) {
            lemma_drop_last_path(q);
            let above = q.drop_last();
            if above.len() > 0 {
                assert(outside(above, index));
                assert(table_path(above));
            } else {
                page_table::lemma_strip(entry(next, root, q.last()));
                assert(q.last() == q[0]);
            }
        }
    }
    let h = page_table::entry_addr(entry(next, root, index));
    assert(next.contains_key(root));
    assert forall|p: Seq<int>| table_path(p) && p.len() > 0 implies valid_path(p.skip(1)) by {
        assert forall|k: int| 0 <= k < p.skip(1).len() implies 0 <= #[trigger] p.skip(1)[k]
            < ENTRIES by {
            assert(p.skip(1)[k] == p[k + 1]);
        }
    }
    assert forall|p: Seq<int>|
        valid_path(p) && p.len() <= 3 && (#[trigger] table_at(
            next,
            root,
            p,
        )) is Some implies next.contains_key(table_at(next, root, p)->0) by {
        lemma_single_entry_walk(mem, next, root, index, p);
        if p.len() > 0 {
            assert(table_path(p));
            assert(mem.contains_key(table_at(mem, h, p.skip(1))->0));
        }
    }
    assert forall|p: Seq<int>, q: Seq<int>|
        valid_path(p) && valid_path(q) && p.len() <= 3 && q.len() <= 3 && (#[trigger] table_at(
            next,
            root,
            p,
        )) is Some && table_at(next, root, p) == #[trigger] table_at(
            next,
            root,
            q,
        ) implies p == q by {
        lemma_single_entry_walk(mem, next, root, index, p);
        lemma_single_entry_walk(mem, next, root, index, q);
        assert(table_path(p) && table_path(q));
        if p.len() > 0 {
            assert(mem.contains_key(table_at(mem, h, p.skip(1))->0));
        }
        if q.len() > 0 {
            assert(mem.contains_key(table_at(mem, h, q.skip(1))->0));
        }
        if p.len() > 0 && q.len() > 0 {
            assert(p.skip(1) == q.skip(1));
            assert(p =~= seq![index] + p.skip(1));
            assert(q =~= seq![index] + q.skip(1));
        } else if p.len() == 0 && q.len() == 0 {
            assert(p =~= q);
        }
    }
}

} // verus!
