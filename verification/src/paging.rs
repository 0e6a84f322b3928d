//! The memory model that the loader's contracts speak of.
//!
//! A page table is a map from the start of each mapped page to its entry, and
//! physical memory is a map from addresses to bytes. Together they give the
//! *virtual memory* of the kernel: for every mapped address the byte that it
//! reads, the access flags, and the size of the page that backs it.

use crate::arith;
use crate::traits::{PageFlags, PageSize};
use vstd::prelude::*;

verus! {

/// One mapped page: the physical frame, the access flags and the size.
pub struct PageEntry<S> {
    pub phys: u64,
    pub flags: PageFlags,
    pub size: S,
}

/// What one virtual address gives access to.
pub struct Cell<S> {
    pub byte: u8,
    pub flags: PageFlags,
    pub size: S,
}

/// The `len` bytes of memory from `addr` on.
pub open spec fn bytes_at(memory: Map<int, u8>, addr: int, len: nat) -> Seq<u8> {
    Seq::new(len, |i: int| memory[addr + i])
}

/// Memory after `bytes` have been written at `addr`.
pub open spec fn stored(memory: Map<int, u8>, addr: int, bytes: Seq<u8>) -> Map<int, u8> {
    Map::new(
        |a: int| true,
        |a: int|
            if addr <= a < addr + bytes.len() {
                bytes[a - addr]
            } else {
                memory[a]
            },
    )
}

/// A run of zero bytes.
pub open spec fn zeros(len: nat) -> Seq<u8> {
    Seq::new(len, |i: int| 0u8)
}

/// The page that starts at `k` is mapped and holds the address `v`.
pub open spec fn covers<S: PageSize>(entries: Map<u64, PageEntry<S>>, k: u64, v: int) -> bool {
    entries.contains_key(k) && k <= v < k + entries[k].size.size()
}

/// The address `v` is mapped.
pub open spec fn mapped<S: PageSize>(entries: Map<u64, PageEntry<S>>, v: int) -> bool {
    exists|k: u64| covers(entries, k, v)
}

/// The start of the page that holds the mapped address `v`.
pub open spec fn page_at<S: PageSize>(entries: Map<u64, PageEntry<S>>, v: int) -> u64 {
    choose|k: u64| covers(entries, k, v)
}

/// The physical address behind the mapped address `v`.
pub open spec fn phys_at<S: PageSize>(entries: Map<u64, PageEntry<S>>, v: int) -> int {
    entries[page_at(entries, v)].phys + (v - page_at(entries, v))
}

/// The base page size in bytes.
pub open spec fn base<S: PageSize>() -> int {
    S::BASE.size() as int
}

/// An entry is aligned to its own size, which is a multiple of the base size, and ends inside
/// the address spaces.
pub open spec fn wf_entry<S: PageSize>(k: u64, entry: PageEntry<S>) -> bool {
    let size = entry.size.size() as int;
    &&& size > 0
    &&& size % base::<S>() == 0
    &&& k as int % size == 0
    &&& entry.phys as int % size == 0
    &&& k + size <= arith::address_space_size()
    &&& entry.phys + size <= arith::address_space_size()
}

/// A valid page table: each entry is valid and no two pages overlap.
pub open spec fn wf_entries<S: PageSize>(entries: Map<u64, PageEntry<S>>) -> bool {
    &&& base::<S>() > 0
    &&& forall|k: u64| #[trigger] entries.contains_key(k) ==> wf_entry(k, entries[k])
    &&& forall|j: u64, k: u64, v: int|
        #[trigger] covers(entries, j, v) && #[trigger] covers(entries, k, v) ==> j == k
}

/// The virtual memory that a page table and a physical memory give.
pub open spec fn virtual_memory<S: PageSize>(
    entries: Map<u64, PageEntry<S>>,
    memory: Map<int, u8>,
) -> Map<int, Cell<S>> {
    Map::new(
        |v: int| mapped(entries, v),
        |v: int|
            Cell {
                byte: memory[phys_at(entries, v)],
                flags: entries[page_at(entries, v)].flags,
                size: entries[page_at(entries, v)].size,
            },
    )
}

/// No mapped page is backed by memory that can still be handed out.
pub open spec fn unshared<S: PageSize>(
    entries: Map<u64, PageEntry<S>>,
    available: Set<int>,
) -> bool {
    forall|v: int| #[trigger] mapped(entries, v) ==> !available.contains(phys_at(entries, v))
}

/// No address outside the page that starts at `k` reaches the frame behind it.
pub open spec fn private<S: PageSize>(entries: Map<u64, PageEntry<S>>, k: u64) -> bool {
    forall|v: int|
        #[trigger] mapped(entries, v) && page_at(entries, v) != k ==> !(entries[k].phys <= phys_at(
            entries,
            v,
        ) < entries[k].phys + entries[k].size.size())
}

/// Virtual memory with other flags on the addresses from `lo` to `hi`.
pub open spec fn reflagged<S>(
    vm: Map<int, Cell<S>>,
    lo: int,
    hi: int,
    flags: PageFlags,
) -> Map<int, Cell<S>> {
    Map::new(
        |v: int| vm.contains_key(v),
        |v: int|
            if lo <= v < hi {
                Cell { flags, ..vm[v] }
            } else {
                vm[v]
            },
    )
}

/// Virtual memory with `bytes` written at the mapped addresses from `addr` on.
pub open spec fn vm_stored<S>(
    vm: Map<int, Cell<S>>,
    addr: int,
    bytes: Seq<u8>,
) -> Map<int, Cell<S>> {
    Map::new(
        |v: int| vm.contains_key(v),
        |v: int|
            if addr <= v < addr + bytes.len() {
                Cell { byte: bytes[v - addr], ..vm[v] }
            } else {
                vm[v]
            },
    )
}

/// Zeroed cells of base pages at the addresses from `lo` to `hi`.
pub open spec fn zero_cells<S: PageSize>(lo: int, hi: int, flags: PageFlags) -> Map<int, Cell<S>> {
    Map::new(|v: int| lo <= v < hi, |v: int| Cell { byte: 0, flags, size: S::BASE })
}

/// The page that covers an address is unique.
pub proof fn lemma_page_at<S: PageSize>(entries: Map<u64, PageEntry<S>>, k: u64, v: int)
    requires
        wf_entries(entries),
        covers(entries, k, v),
    ensures
        mapped(entries, v),
        page_at(entries, v) == k,
        phys_at(entries, v) == entries[k].phys + (v - k),
{
}

/// A page that holds one address of an aligned base-sized block holds all of the block.
pub proof fn lemma_block_in_page<S: PageSize>(
    entries: Map<u64, PageEntry<S>>,
    k: u64,
    block: int,
    v: int,
)
    requires
        wf_entries(entries),
        covers(entries, k, v),
        block % base::<S>() == 0,
        block <= v < block + base::<S>(),
    ensures
        k <= block,
        block + base::<S>() <= k + entries[k].size.size(),
{
    let b = base::<S>();
    let size = entries[k].size.size() as int;
    assert(wf_entry(k, entries[k]));
    arith::lemma_multiples_chain(k as int, size, b);
    arith::lemma_multiples_add(k as int, size, b);
    if k > block {
        arith::lemma_multiples_add(k as int, block, b);
        arith::lemma_multiples_apart(k as int, block, b);
    }
    if block + b > k + size {
        arith::lemma_multiples_apart(block, k + size, b);
    }
}

/// Adding a page that overlaps no other.
pub proof fn lemma_add_page<S: PageSize>(
    entries: Map<u64, PageEntry<S>>,
    k: u64,
    entry: PageEntry<S>,
)
    requires
        wf_entries(entries),
        wf_entry(k, entry),
        forall|v: int| k <= v < k + entry.size.size() ==> !#[trigger] mapped(entries, v),
    ensures
        ({
            let after = entries.insert(k, entry);
            &&& wf_entries(after)
            &&& !entries.contains_key(k)
            &&& forall|v: int| #[trigger]
                mapped(after, v) == (mapped(entries, v) || k <= v < k + entry.size.size())
            &&& forall|v: int|
                mapped(entries, v) ==> #[trigger] page_at(after, v) == page_at(entries, v)
                    && phys_at(after, v) == phys_at(entries, v) && page_at(entries, v) != k
            &&& forall|v: int|
                k <= v < k + entry.size.size() ==> #[trigger] page_at(after, v) == k && phys_at(
                    after,
                    v,
                ) == entry.phys + (v - k)
        }),
{
    let after = entries.insert(k, entry);
    let size = entry.size.size();
    if entries.contains_key(k) {
        assert(wf_entry(k, entries[k]));
        assert(covers(entries, k, k as int));
        assert(mapped(entries, k as int));
    }
    assert forall|j: u64, v: int| j != k implies covers(after, j, v) == covers(entries, j, v) by {}
    assert forall|v: int| covers(after, k, v) == (k <= v < k + size) by {}
    assert forall|i: u64, j: u64, v: int| #[trigger]
        covers(after, i, v) && #[trigger] covers(after, j, v) implies i == j by {
        if i == k && j != k {
            assert(covers(entries, j, v));
            assert(mapped(entries, v));
        }
        if j == k && i != k {
            assert(covers(entries, i, v));
            assert(mapped(entries, v));
        }
        if i != k && j != k {
            assert(covers(entries, i, v) && covers(entries, j, v));
        }
    }
    assert forall|j: u64| #[trigger] after.contains_key(j) implies wf_entry(j, after[j]) by {
        if j != k {
            assert(entries.contains_key(j));
        }
    }
    assert(wf_entries(after));
    assert forall|v: int| #[trigger] mapped(after, v) == (mapped(entries, v) || k <= v < k
        + size) by {
        if mapped(after, v) {
            let j = choose|j: u64| covers(after, j, v);
            if j != k {
                assert(covers(entries, j, v));
            }
        }
        if mapped(entries, v) {
            let j = choose|j: u64| covers(entries, j, v);
            assert(covers(after, j, v));
        }
        if k <= v < k + size {
            assert(covers(after, k, v));
        }
    }
    assert forall|v: int| mapped(entries, v) implies #[trigger] page_at(after, v) == page_at(
        entries,
        v,
    ) && phys_at(after, v) == phys_at(entries, v) && page_at(entries, v) != k by {
        let j = page_at(entries, v);
        assert(covers(entries, j, v));
        assert(covers(after, j, v));
        lemma_page_at(after, j, v);
    }
    assert forall|v: int| k <= v < k + size implies #[trigger] page_at(after, v) == k && phys_at(
        after,
        v,
    ) == entry.phys + (v - k) by {
        assert(covers(after, k, v));
        lemma_page_at(after, k, v);
    }
}

/// Replacing a page by one of the same size.
pub proof fn lemma_replace_page<S: PageSize>(
    entries: Map<u64, PageEntry<S>>,
    k: u64,
    entry: PageEntry<S>,
)
    requires
        wf_entries(entries),
        entries.contains_key(k),
        wf_entry(k, entry),
        entry.size == entries[k].size,
    ensures
        ({
            let after = entries.insert(k, entry);
            &&& wf_entries(after)
            &&& forall|v: int| #[trigger] mapped(after, v) == mapped(entries, v)
            &&& forall|v: int|
                mapped(entries, v) ==> #[trigger] page_at(after, v) == page_at(entries, v)
            &&& forall|v: int|
                mapped(entries, v) && page_at(entries, v) != k ==> #[trigger] phys_at(after, v)
                    == phys_at(entries, v)
            &&& forall|v: int|
                k <= v < k + entry.size.size() ==> #[trigger] mapped(entries, v)
            &&& forall|v: int|
                k <= v < k + entry.size.size() ==> #[trigger] page_at(entries, v) == k
            &&& forall|v: int|
                k <= v < k + entry.size.size() ==> #[trigger] phys_at(after, v) == entry.phys + (v
                    - k)
        }),
{
    let after = entries.insert(k, entry);
    assert forall|j: u64, v: int| #[trigger] covers(after, j, v) == covers(entries, j, v) by {}
    assert forall|i: u64, j: u64, v: int| #[trigger]
        covers(after, i, v) && #[trigger] covers(after, j, v) implies i == j by {
        assert(covers(entries, i, v) && covers(entries, j, v));
    }
    assert forall|j: u64| #[trigger] after.contains_key(j) implies wf_entry(j, after[j]) by {
        if j != k {
            assert(entries.contains_key(j));
        }
    }
    assert(wf_entries(after));
    assert forall|v: int| #[trigger] mapped(after, v) == mapped(entries, v) by {
        if mapped(after, v) {
            let j = choose|j: u64| covers(after, j, v);
            assert(covers(entries, j, v));
        }
        if mapped(entries, v) {
            let j = choose|j: u64| covers(entries, j, v);
            assert(covers(after, j, v));
        }
    }
    assert forall|v: int| mapped(entries, v) implies #[trigger] page_at(after, v) == page_at(
        entries,
        v,
    ) by {
        let j = page_at(entries, v);
        assert(covers(entries, j, v));
        assert(covers(after, j, v));
    }
    assert forall|v: int| mapped(entries, v) && page_at(entries, v) != k implies #[trigger] phys_at(
        after,
        v,
    ) == phys_at(entries, v) by {
        assert(page_at(after, v) == page_at(entries, v));
    }
    assert forall|v: int| k <= v < k + entry.size.size() implies #[trigger] mapped(
        entries,
        v,
    ) by {
        assert(covers(entries, k, v));
    }
    assert forall|v: int| k <= v < k + entry.size.size() implies #[trigger] page_at(entries, v)
        == k by {
        assert(covers(entries, k, v));
    }
    assert forall|v: int| k <= v < k + entry.size.size() implies #[trigger] phys_at(after, v)
        == entry.phys + (v - k) by {
        assert(covers(entries, k, v));
        assert(covers(after, k, v));
    }
}

/// Removing a page unmaps its addresses and changes nothing else.
pub proof fn lemma_remove_page<S: PageSize>(entries: Map<u64, PageEntry<S>>, k: u64)
    requires
        wf_entries(entries),
        entries.contains_key(k),
    ensures
        ({
            let after = entries.remove(k);
            &&& wf_entries(after)
            &&& forall|v: int| #[trigger]
                mapped(after, v) ==> {
                    &&& mapped(entries, v)
                    &&& page_at(after, v) == page_at(entries, v)
                    &&& phys_at(after, v) == phys_at(entries, v)
                }
            &&& forall|j: u64|
                j != k && entries.contains_key(j) && private(entries, j) ==> #[trigger] private(
                    after,
                    j,
                )
        }),
{
    let after = entries.remove(k);
    assert forall|j: u64, v: int| #[trigger] covers(after, j, v) implies covers(
        entries,
        j,
        v,
    ) by {}
    assert forall|i: u64, j: u64, v: int| #[trigger]
        covers(after, i, v) && #[trigger] covers(after, j, v) implies i == j by {
        assert(covers(entries, i, v) && covers(entries, j, v));
    }
    assert forall|j: u64| #[trigger] after.contains_key(j) implies wf_entry(j, after[j]) by {
        assert(entries.contains_key(j));
    }
    assert(wf_entries(after));
    assert forall|v: int| #[trigger] mapped(after, v) implies {
        &&& mapped(entries, v)
        &&& page_at(after, v) == page_at(entries, v)
        &&& phys_at(after, v) == phys_at(entries, v)
    } by {
        let j = page_at(after, v);
        assert(covers(after, j, v));
        assert(covers(entries, j, v));
        lemma_page_at(entries, j, v);
    }
}

/// The frame of `size` bytes at `frame` came out of `before` and is not in `after`.
pub open spec fn taken(before: Set<int>, after: Set<int>, frame: u64, size: int) -> bool {
    &&& after.subset_of(before)
    &&& forall|a: int|
        frame <= a < frame + size ==> #[trigger] before.contains(a) && !after.contains(a)
}

/// Copying a page to a fresh frame and mapping it there keeps every byte of virtual memory.
pub proof fn lemma_copy_page<S: PageSize>(
    entries: Map<u64, PageEntry<S>>,
    memory: Map<int, u8>,
    k: u64,
    frame: u64,
    flags: PageFlags,
    before: Set<int>,
    after: Set<int>,
)
    requires
        wf_entries(entries),
        unshared(entries, before),
        entries.contains_key(k),
        taken(before, after, frame, entries[k].size.size() as int),
        wf_entry(k, PageEntry { phys: frame, flags, size: entries[k].size }),
    ensures
        ({
            let size = entries[k].size.size();
            let new_entries = entries.insert(
                k,
                PageEntry { phys: frame, flags, size: entries[k].size },
            );
            let new_memory = stored(
                memory,
                frame as int,
                bytes_at(memory, entries[k].phys as int, size as nat),
            );
            &&& wf_entries(new_entries)
            &&& unshared(new_entries, after)
            &&& private(new_entries, k)
            &&& virtual_memory(new_entries, new_memory) == reflagged(
                virtual_memory(entries, memory),
                k as int,
                k + size,
                flags,
            )
            &&& forall|j: u64|
                j != k && entries.contains_key(j) && private(entries, j) ==> #[trigger] private(
                    new_entries,
                    j,
                )
        }),
{
    let size = entries[k].size.size();
    let entry = PageEntry { phys: frame, flags, size: entries[k].size };
    let new_entries = entries.insert(k, entry);
    let copy = bytes_at(memory, entries[k].phys as int, size as nat);
    let new_memory = stored(memory, frame as int, copy);
    lemma_replace_page(entries, k, entry);
    assert forall|v: int| mapped(entries, v) && page_at(entries, v) == k implies k <= v < k
        + size by {
        assert(covers(entries, page_at(entries, v), v));
    }
    assert forall|v: int| #[trigger] mapped(new_entries, v) implies !after.contains(
        phys_at(new_entries, v),
    ) by {
        assert(mapped(entries, v));
        if page_at(entries, v) == k {
            let a = phys_at(new_entries, v);
            assert(frame <= a < frame + size);
            assert(before.contains(a));
        }
    }
    assert forall|v: int| #[trigger]
        mapped(new_entries, v) && page_at(new_entries, v) != k implies !(new_entries[k].phys
        <= phys_at(new_entries, v) < new_entries[k].phys + new_entries[k].size.size()) by {
        assert(mapped(entries, v));
        assert(!before.contains(phys_at(entries, v)));
    }
    let vm = reflagged(virtual_memory(entries, memory), k as int, k + size, flags);
    let new_vm = virtual_memory(new_entries, new_memory);
    assert forall|v: int| #[trigger] new_vm.contains_key(v) implies new_vm[v] == vm[v] by {
        assert(mapped(new_entries, v));
        assert(mapped(entries, v));
        if page_at(entries, v) == k {
            assert(phys_at(entries, v) == entries[k].phys + (v - k));
            assert(phys_at(new_entries, v) == frame + (v - k));
            assert(copy[v - k] == memory[entries[k].phys + (v - k)]);
        } else {
            assert(!before.contains(phys_at(entries, v)));
            if k <= v < k + size {
                assert(page_at(entries, v) == k);
            }
        }
    }
    assert(new_vm =~= vm);
    assert forall|j: u64| j != k && entries.contains_key(j) && private(entries, j) implies
        #[trigger] private(new_entries, j) by {
        assert forall|v: int| #[trigger]
            mapped(new_entries, v) && page_at(new_entries, v) != j implies !(new_entries[j].phys
            <= phys_at(new_entries, v) < new_entries[j].phys + new_entries[j].size.size()) by {
            assert(mapped(entries, v));
            if page_at(entries, v) == k {
                let a = phys_at(new_entries, v);
                assert(frame <= a < frame + size);
                assert(before.contains(a));
                if entries[j].phys <= a < entries[j].phys + entries[j].size.size() {
                    let w = j + (a - entries[j].phys);
                    assert(covers(entries, j, w));
                    lemma_page_at(entries, j, w);
                    assert(!before.contains(phys_at(entries, w)));
                }
            }
        }
    }
}

/// Writing inside the frame of a private page changes exactly the addresses of that page.
pub proof fn lemma_write_page<S: PageSize>(
    entries: Map<u64, PageEntry<S>>,
    memory: Map<int, u8>,
    k: u64,
    addr: int,
    bytes: Seq<u8>,
)
    requires
        wf_entries(entries),
        entries.contains_key(k),
        private(entries, k),
        k <= addr,
        addr + bytes.len() <= k + entries[k].size.size(),
    ensures
        virtual_memory(entries, stored(memory, entries[k].phys + (addr - k), bytes)) == vm_stored(
            virtual_memory(entries, memory),
            addr,
            bytes,
        ),
{
    let at = entries[k].phys + (addr - k);
    let new_memory = stored(memory, at, bytes);
    let vm = vm_stored(virtual_memory(entries, memory), addr, bytes);
    let new_vm = virtual_memory(entries, new_memory);
    assert forall|v: int| #[trigger] new_vm.contains_key(v) implies new_vm[v] == vm[v] by {
        assert(mapped(entries, v));
        assert(covers(entries, page_at(entries, v), v));
        if page_at(entries, v) != k && addr <= v < addr + bytes.len() {
            assert(covers(entries, k, v));
        }
    }
    assert(new_vm =~= vm);
}

/// Mapping a fresh zeroed frame adds zero bytes and changes nothing else.
pub proof fn lemma_zero_page<S: PageSize>(
    entries: Map<u64, PageEntry<S>>,
    memory: Map<int, u8>,
    k: u64,
    frame: u64,
    flags: PageFlags,
    before: Set<int>,
    after: Set<int>,
)
    requires
        wf_entries(entries),
        unshared(entries, before),
        taken(before, after, frame, base::<S>()),
        wf_entry(k, PageEntry { phys: frame, flags, size: S::BASE }),
        forall|v: int| k <= v < k + base::<S>() ==> !#[trigger] mapped(entries, v),
    ensures
        ({
            let new_entries = entries.insert(k, PageEntry { phys: frame, flags, size: S::BASE });
            let new_memory = stored(memory, frame as int, zeros(base::<S>() as nat));
            &&& wf_entries(new_entries)
            &&& unshared(new_entries, after)
            &&& virtual_memory(new_entries, new_memory) == virtual_memory(
                entries,
                memory,
            ).union_prefer_right(zero_cells::<S>(k as int, k + base::<S>(), flags))
        }),
{
    let b = base::<S>();
    let entry = PageEntry { phys: frame, flags, size: S::BASE };
    let new_entries = entries.insert(k, entry);
    let new_memory = stored(memory, frame as int, zeros(b as nat));
    lemma_add_page(entries, k, entry);
    assert forall|v: int| #[trigger] mapped(new_entries, v) implies !after.contains(
        phys_at(new_entries, v),
    ) by {
        if mapped(entries, v) {
            assert(page_at(new_entries, v) == page_at(entries, v));
            assert(!before.contains(phys_at(entries, v)));
        } else {
            assert(page_at(new_entries, v) == k);
            assert(before.contains(phys_at(new_entries, v)));
        }
    }
    let vm = virtual_memory(entries, memory).union_prefer_right(
        zero_cells::<S>(k as int, k + b, flags),
    );
    let new_vm = virtual_memory(new_entries, new_memory);
    assert forall|v: int| #[trigger] new_vm.contains_key(v) == vm.contains_key(v) by {
        assert(mapped(new_entries, v) == (mapped(entries, v) || k <= v < k + b));
    }
    assert forall|v: int| #[trigger] new_vm.contains_key(v) implies new_vm[v] == vm[v] by {
        assert(mapped(new_entries, v));
        if mapped(entries, v) {
            assert(page_at(new_entries, v) == page_at(entries, v));
            assert(!before.contains(phys_at(entries, v)));
            assert(!(k <= v < k + b));
            assert(!zero_cells::<S>(k as int, k + b, flags).contains_key(v));
        } else {
            assert(page_at(new_entries, v) == k);
        }
    }
    assert(new_vm =~= vm);
}

/// The virtual memory of two page tables that share no address.
pub proof fn lemma_union<S: PageSize>(
    first: Map<u64, PageEntry<S>>,
    second: Map<u64, PageEntry<S>>,
    memory: Map<int, u8>,
)
    requires
        wf_entries(first),
        wf_entries(second),
        wf_entries(first.union_prefer_right(second)),
        forall|v: int| #[trigger] mapped(first, v) ==> !mapped(second, v),
    ensures
        ({
            let both = first.union_prefer_right(second);
            &&& virtual_memory(both, memory) == virtual_memory(first, memory).union_prefer_right(
                virtual_memory(second, memory),
            )
            &&& forall|v: int| #[trigger]
                mapped(both, v) == (mapped(first, v) || mapped(second, v))
            &&& forall|v: int| mapped(first, v) ==> #[trigger] phys_at(both, v) == phys_at(first, v)
            &&& forall|v: int|
                mapped(second, v) ==> #[trigger] phys_at(both, v) == phys_at(second, v)
        }),
{
    let both = first.union_prefer_right(second);
    assert forall|k: u64, v: int| covers(first, k, v) implies covers(both, k, v) && both[k]
        == first[k] by {
        if second.contains_key(k) {
            assert(wf_entry(k, second[k]));
            assert(wf_entry(k, first[k]));
            assert(covers(second, k, k as int));
            assert(covers(first, k, k as int));
            assert(mapped(first, k as int) && mapped(second, k as int));
        }
    }
    assert forall|k: u64, v: int| covers(second, k, v) implies covers(both, k, v) && both[k]
        == second[k] by {}
    assert forall|v: int| #[trigger] mapped(both, v) == (mapped(first, v) || mapped(second, v)) by {
        if mapped(first, v) {
            let k = choose|k: u64| covers(first, k, v);
            assert(covers(both, k, v));
        }
        if mapped(second, v) {
            let k = choose|k: u64| covers(second, k, v);
            assert(covers(both, k, v));
        }
        if mapped(both, v) {
            let k = choose|k: u64| covers(both, k, v);
            assert(covers(first, k, v) || covers(second, k, v));
        }
    }
    let vm = virtual_memory(first, memory).union_prefer_right(virtual_memory(second, memory));
    let both_vm = virtual_memory(both, memory);
    assert forall|v: int| mapped(first, v) implies #[trigger] phys_at(both, v) == phys_at(first, v)
        && both_vm[v] == virtual_memory(first, memory)[v] by {
        let k = page_at(first, v);
        assert(covers(first, k, v));
        assert(covers(both, k, v));
        lemma_page_at(both, k, v);
    }
    assert forall|v: int| mapped(second, v) implies #[trigger] phys_at(both, v) == phys_at(
        second,
        v,
    ) && both_vm[v] == virtual_memory(second, memory)[v] by {
        let k = page_at(second, v);
        assert(covers(second, k, v));
        assert(covers(both, k, v));
        lemma_page_at(both, k, v);
    }
    assert forall|v: int| #[trigger] both_vm.contains_key(v) == vm.contains_key(v) by {
        assert(mapped(both, v) == (mapped(first, v) || mapped(second, v)));
    }
    assert forall|v: int| #[trigger] both_vm.contains_key(v) implies both_vm[v] == vm[v] by {
        assert(mapped(both, v));
        if mapped(second, v) {
            assert(phys_at(both, v) == phys_at(second, v));
        } else {
            assert(mapped(first, v));
            assert(phys_at(both, v) == phys_at(first, v));
        }
    }
    assert(both_vm =~= vm);
}

/// Virtual memory depends only on the physical bytes behind it.
pub proof fn lemma_same_bytes<S: PageSize>(
    entries: Map<u64, PageEntry<S>>,
    memory: Map<int, u8>,
    other: Map<int, u8>,
)
    requires
        forall|v: int| #[trigger]
            mapped(entries, v) ==> memory[phys_at(entries, v)] == other[phys_at(entries, v)],
    ensures
        virtual_memory(entries, memory) == virtual_memory(entries, other),
{
    assert(virtual_memory(entries, memory) =~= virtual_memory(entries, other));
}

} // verus!
