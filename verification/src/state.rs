//! What the page table, the frame allocator and physical memory hold at one moment, and what
//! the loader keeps true of them.

use crate::error::{LoadError, MapError, UnmapError};
use crate::paging;
use crate::paging::{Cell, PageEntry};
use crate::traits;
use crate::traits::{FrameAllocator, PageSize, PageTable, PhysicalMemoryAccess, Request};
use vstd::prelude::*;

verus! {

/// The state of the page table, the frame allocator and physical memory.
pub struct Snapshot<S> {
    pub entries: Map<u64, PageEntry<S>>,
    pub refusals: Seq<(Request<S>, MapError)>,
    pub unmap_refusals: Seq<(u64, UnmapError)>,
    pub available: Set<int>,
    pub refused: Seq<S>,
    pub granted: Seq<(S, u64)>,
    pub tables: Seq<(S, u64)>,
    pub memory: Map<int, u8>,
}

/// The current state of the three platform objects.
pub open spec fn snapshot<
    S: PageSize,
    P: PageTable<S>,
    A: FrameAllocator<S>,
    M: PhysicalMemoryAccess,
>(page_table: P, allocator: A, phys_mem: M) -> Snapshot<S> {
    Snapshot {
        entries: page_table.entries(),
        refusals: page_table.refusals(),
        unmap_refusals: page_table.unmap_refusals(),
        available: allocator.available(),
        refused: allocator.refused(),
        granted: allocator.granted(),
        tables: page_table.tables(),
        memory: phys_mem.memory(),
    }
}

impl<S: PageSize> Snapshot<S> {
    /// The kernel's virtual memory in this state.
    pub open spec fn vm(self) -> Map<int, Cell<S>> {
        paging::virtual_memory(self.entries, self.memory)
    }

    /// The page table is valid and maps no memory that can still be handed out, and each page
    /// that was copied for writing is backed by a base-sized frame of its own.
    pub open spec fn sound(self, copied: Seq<u64>) -> bool {
        &&& paging::wf_entries(self.entries)
        &&& paging::unshared(self.entries, self.available)
        &&& forall|k: u64| #[trigger]
            copied.contains(k) ==> {
                &&& self.entries.contains_key(k)
                &&& self.entries[k].size == S::BASE
                &&& paging::private(self.entries, k)
            }
    }

    /// The physical bytes that the loader may write: those that can still be handed out, and
    /// the frames of the pages that were copied for writing.
    pub open spec fn owned(self, copied: Seq<u64>) -> Set<int> {
        Set::new(
            |a: int|
                self.available.contains(a) || exists|k: u64|
                    #![trigger copied.contains(k)]
                    copied.contains(k) && self.entries[k].phys <= a < self.entries[k].phys
                        + paging::base::<S>(),
        )
    }

    /// Nothing was refused between the two states.
    pub open spec fn quiet(self, after: Self) -> bool {
        &&& after.refusals == self.refusals
        &&& after.unmap_refusals == self.unmap_refusals
        &&& after.refused == self.refused
    }

    /// Between the two states no frames were taken but those that store the page table.
    pub open spec fn only_tables(self, after: Self) -> bool {
        &&& after.tables == self.tables + traits::added(self.tables, after.tables)
        &&& after.granted == self.granted + traits::added(self.tables, after.tables)
    }

    /// The platform refused a request between the two states, and `error` reports it.
    pub open spec fn refused_by(self, after: Self, error: LoadError) -> bool {
        match error {
            LoadError::FrameAllocationFailed => after.refused == self.refused.push(S::BASE),
            LoadError::MappingFailed(e) => after.refusals == self.refusals.push(
                (after.refusals.last().0, e),
            ),
            LoadError::InvalidElf(msg) => {
                &&& msg == "failed to unmap page during CoW" || msg
                    == "failed to unmap page during BSS handling"
                &&& after.unmap_refusals.len() == self.unmap_refusals.len() + 1
            },
            _ => false,
        }
    }

    /// No physical byte that the loader does not own has changed.
    pub open spec fn kept(self, copied: Seq<u64>, after: Self) -> bool {
        forall|a: int|
            !self.owned(copied).contains(a) ==> #[trigger] after.memory[a] == self.memory[a]
    }
}

/// Without copied pages the loader may write what can still be handed out, and nothing else.
pub proof fn lemma_owned_without_copies<S: PageSize>(now: Snapshot<S>)
    ensures
        now.owned(Seq::empty()) == now.available,
{
    assert(now.owned(Seq::empty()) =~= now.available);
}

/// Bytes that two steps in a row leave alone, both together leave alone.
pub proof fn lemma_kept_chain<S: PageSize>(
    first: Snapshot<S>,
    first_copied: Seq<u64>,
    second: Snapshot<S>,
    second_copied: Seq<u64>,
    third: Snapshot<S>,
)
    requires
        first.kept(first_copied, second),
        second.owned(second_copied).subset_of(first.owned(first_copied)),
        second.kept(second_copied, third),
    ensures
        first.kept(first_copied, third),
{
    assert forall|a: int| !first.owned(first_copied).contains(a) implies #[trigger] third.memory[a]
        == first.memory[a] by {
        assert(second.memory[a] == first.memory[a]);
    }
}

} // verus!
