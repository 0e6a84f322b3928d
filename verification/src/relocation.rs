//! Relocation handling for the kernel ELF loader.
//!
//! Supports RELA and RELR (compact) relocations with copy-on-write
//! page handling to avoid aliasing the original kernel ELF file.
//!
//! Address arithmetic on relocation entries is modulo the size of the address space.

use crate::arith;
use crate::error::LoadError;
use crate::paging;
use crate::paging::{Cell, PageEntry};
use crate::physical;
use crate::physical::{MapRefusal, Physical, Run};
use crate::state;
use crate::state::Snapshot;
use crate::traits::{
    FrameAllocator, PageFlags, PageSize, PageTable, PhysAddr, PhysicalMemoryAccess, VirtAddr,
};
use vstd::prelude::*;

verus! {

/// Maximum number of pages that can be copy-on-write'd during relocation.
pub const MAX_COPIED_PAGES: usize = 1024;

/// Tracks pages that have been copied for mutation during relocation.
pub struct CopiedPages {
    pages: [u64; MAX_COPIED_PAGES],
    count: usize,
}

impl View for CopiedPages {
    type V = Seq<u64>;

    /// The recorded pages, in the order in which they were copied.
    closed spec fn view(&self) -> Seq<u64> {
        self.pages@.take(self.count as int)
    }
}

impl CopiedPages {
    #[verifier::type_invariant]
    spec fn bounded(self) -> bool {
        self.count <= MAX_COPIED_PAGES
    }

    /// An empty list.
    pub fn new() -> (r: Self)
        ensures
            r@ == Seq::<u64>::empty(),
    {
        let r = CopiedPages { pages: [0; MAX_COPIED_PAGES], count: 0 };
        assert(r@ =~= Seq::<u64>::empty());
        r
    }

    /// Check if a page (identified by its aligned virtual address) has been copied.
    pub fn contains(&self, page_addr: u64) -> (r: bool)
        ensures
            r == self@.contains(page_addr),
    {
        proof {
            use_type_invariant(self);
        }
        let mut i: usize = 0;
        while i < self.count
            invariant
                i <= self.count <= MAX_COPIED_PAGES,
                forall|j: int| 0 <= j < i ==> self@[j] != page_addr,
            decreases self.count - i,
        {
            if self.pages[i] == page_addr {
                assert(self@[i as int] == page_addr);
                return true;
            }
            i = i + 1;
        }
        false
    }

    /// Record that a page has been copied.
    pub fn insert(&mut self, page_addr: u64) -> (r: Result<(), LoadError>)
        ensures
            old(self)@.len() < MAX_COPIED_PAGES ==> r is Ok && final(self)@ == old(self)@.push(
                page_addr,
            ),
            old(self)@.len() >= MAX_COPIED_PAGES ==> r == Err::<(), LoadError>(
                LoadError::TooManyCopiedPages,
            ) && final(self)@ == old(self)@,
    {
        proof {
            use_type_invariant(&*self);
        }
        if self.count >= MAX_COPIED_PAGES {
            return Err(LoadError::TooManyCopiedPages);
        }
        self.pages[self.count] = page_addr;
        self.count = self.count + 1;
        assert(self@ =~= old(self)@.push(page_addr));
        Ok(())
    }
}

/// The start of the base page that holds `addr`.
pub open spec fn page_of<S: PageSize>(addr: u64) -> u64 {
    arith::floor_to(addr as int, paging::base::<S>()) as u64
}

/// An eight-byte access at `addr` runs over the end of its base page.
pub open spec fn crosses<S: PageSize>(addr: u64) -> bool {
    addr - page_of::<S>(addr) + 8 > paging::base::<S>()
}

/// Virtual memory once the page at `page` has been made writable for relocation: a page that
/// is copied for the first time becomes writable and keeps all else.
pub open spec fn with_owned_page<S: PageSize>(
    vm: Map<int, Cell<S>>,
    copied: Seq<u64>,
    page: u64,
) -> Map<int, Cell<S>> {
    if copied.contains(page) {
        vm
    } else {
        paging::reflagged(
            vm,
            page as int,
            page + paging::base::<S>(),
            PageFlags { writable: true, executable: vm[page as int].flags.executable },
        )
    }
}

/// The list of copied pages once `page` is on it.
pub open spec fn with_page(copied: Seq<u64>, page: u64) -> Seq<u64> {
    if copied.contains(page) {
        copied
    } else {
        copied.push(page)
    }
}

/// There is no room to record `page` as copied.
pub open spec fn list_full(copied: Seq<u64>, page: u64) -> bool {
    !copied.contains(page) && copied.len() >= MAX_COPIED_PAGES
}

/// Ensure the page containing `virt` is privately owned (copied from the
/// original ELF mapping if necessary).
///
/// Returns the physical address of the (now-writable) frame.
pub fn ensure_page_writable<
    S: PageSize,
    P: PageTable<S>,
    A: FrameAllocator<S>,
    M: PhysicalMemoryAccess,
>(
    virt: VirtAddr,
    page_table: &mut P,
    allocator: &mut A,
    phys_mem: &mut M,
    copied: &mut CopiedPages,
) -> (r: Result<PhysAddr, LoadError>)
    requires
        state::snapshot(*old(page_table), *old(allocator), *old(phys_mem)).sound(old(copied)@),
    ensures
        ({
            let before = state::snapshot(*old(page_table), *old(allocator), *old(phys_mem));
            let after = state::snapshot(*final(page_table), *final(allocator), *final(phys_mem));
            let page = page_of::<S>(virt.0);
            &&& before.kept(old(copied)@, after)
            &&& after.sound(final(copied)@)
            &&& !paging::mapped(before.entries, page as int) ==> r == Err::<PhysAddr, LoadError>(
                LoadError::InvalidElf("page not mapped during relocation"),
            ) && after == before && final(copied)@ == old(copied)@
            &&& paging::mapped(before.entries, page as int) ==> match r {
                Ok(phys) => {
                    &&& before.quiet(after)
                    &&& !list_full(old(copied)@, page)
                    &&& after.owned(final(copied)@).subset_of(before.owned(old(copied)@))
                    &&& final(copied)@ == with_page(old(copied)@, page)
                    &&& after.vm() == with_owned_page(before.vm(), old(copied)@, page)
                    &&& phys.0 == after.entries[page].phys + (virt.0 - page)
                },
                Err(e) => {
                    &&& final(copied)@ == old(copied)@
                    &&& {
                        &&& before.refused_by(after, e)
                        &&& after.entries == before.entries || after.entries
                            == before.entries.remove(page)
                    } || {
                        &&& list_full(old(copied)@, page)
                        &&& e == LoadError::TooManyCopiedPages
                        &&& before.quiet(after)
                        &&& after.vm() == with_owned_page(before.vm(), old(copied)@, page)
                    }
                },
            }
            &&& old(copied)@.contains(page) ==> r is Ok && after == before
            &&& physical::tracks(
                |memory: Physical<S>| memory.with_owned_page(page),
                before,
                old(copied)@,
                after,
                final(copied)@,
                physical::outcome(r),
            )
        }),
{
    let ghost before = state::snapshot(*page_table, *allocator, *phys_mem);
    let ghost copied_before = copied@;
    let base_size: u64 = S::BASE.bytes();
    let page_addr: u64 = arith::align_down(virt.as_u64(), base_size);
    assert(page_addr == page_of::<S>(virt.0));
    let ghost run = |memory: Physical<S>| memory.with_owned_page(page_addr);
    proof {
        physical::lemma_idle(before, copied_before);
    }
    if copied.contains(page_addr) {
        // Already copied: just look up the current physical address.
        assert(paging::covers(before.entries, page_addr, page_addr as int));
        assert(paging::mapped(before.entries, page_addr as int));
        let phys: PhysAddr = match page_table.translate(VirtAddr::new(page_addr)) {
            Some((phys, _, _)) => phys,
            None => {
                return Err(LoadError::InvalidElf("page not mapped during relocation"));
            },
        };
        assert(paging::wf_entry(page_addr, before.entries[page_addr]));
        return Ok(PhysAddr::new(phys.as_u64() + (virt.as_u64() - page_addr)));
    }
    // Look up the current mapping.
    let (old_phys, old_flags): (PhysAddr, PageFlags) = match page_table.translate(
        VirtAddr::new(page_addr),
    ) {
        Some((phys, flags, _)) => (phys, flags),
        None => {
            return Err(LoadError::InvalidElf("page not mapped during relocation"));
        },
    };
    let ghost k = choose|k: u64|
        {
            &&& #[trigger] paging::covers(before.entries, k, page_addr as int)
            &&& old_phys.0 == before.entries[k].phys + (page_addr - k)
            &&& old_flags == before.entries[k].flags
        };
    proof {
        paging::lemma_page_at(before.entries, k, page_addr as int);
        paging::lemma_block_in_page(before.entries, k, page_addr as int, page_addr as int);
        assert(paging::wf_entry(k, before.entries[k]));
    }
    // Allocate a new frame.
    let new_phys: PhysAddr = match allocator.allocate_frame(S::BASE) {
        Some(frame) => frame,
        None => {
            proof {
                let after = state::snapshot(*page_table, *allocator, *phys_mem);
                physical::lemma_one_answer(
                    run,
                    before,
                    copied_before,
                    physical::reply(before, after, None, None, None),
                    after,
                    copied_before,
                    Err(LoadError::FrameAllocationFailed),
                );
            }
            return Err(LoadError::FrameAllocationFailed);
        },
    };
    proof {
        arith::lemma_aligned_block_fits(new_phys.0, base_size);
        if old_phys.0 + base_size > new_phys.0 && new_phys.0 + base_size > old_phys.0 {
            let a = if old_phys.0 >= new_phys.0 {
                old_phys.0 as int
            } else {
                new_phys.0 as int
            };
            let v = page_addr + (a - old_phys.0);
            assert(paging::covers(before.entries, k, v));
            paging::lemma_page_at(before.entries, k, v);
            assert(before.available.contains(a));
        }
    }
    // Copy the old frame's contents to the new frame.
    phys_mem.copy_phys(old_phys, new_phys, base_size);
    // Remap the page to the new frame with writable flags.
    match page_table.unmap(VirtAddr::new(page_addr)) {
        Ok(_) => {},
        Err(reason) => {
            proof {
                let after = state::snapshot(*page_table, *allocator, *phys_mem);
                physical::lemma_one_answer(
                    run,
                    before,
                    copied_before,
                    physical::reply(before, after, Some(new_phys.0), Some(reason), None),
                    after,
                    copied_before,
                    Err(LoadError::InvalidElf("failed to unmap page during CoW")),
                );
            }
            return Err(LoadError::InvalidElf("failed to unmap page during CoW"));
        },
    }
    let new_flags = PageFlags { writable: true, executable: old_flags.executable };
    match page_table.map(VirtAddr::new(page_addr), new_phys, S::BASE, new_flags, allocator) {
        Ok(_) => {},
        Err(e) => {
            proof {
                let after = state::snapshot(*page_table, *allocator, *phys_mem);
                paging::lemma_remove_page(before.entries, page_addr);
                lemma_still_sound(before, copied_before, page_addr, after);
                let refusal = MapRefusal { at: page_addr, reason: e, refused: after.refused };
                physical::lemma_one_answer(
                    run,
                    before,
                    copied_before,
                    physical::reply(before, after, Some(new_phys.0), None, Some(refusal)),
                    after,
                    copied_before,
                    Err(LoadError::MappingFailed(e)),
                );
            }
            return Err(LoadError::MappingFailed(e));
        },
    }
    let ghost after = state::snapshot(*page_table, *allocator, *phys_mem);
    proof {
        assert(paging::covers(before.entries, page_addr, page_addr as int));
        assert(k == page_addr);
        assert(after.entries =~= before.entries.insert(
            page_addr,
            PageEntry { phys: new_phys.0, flags: new_flags, size: S::BASE },
        ));
        paging::lemma_copy_page(
            before.entries,
            before.memory,
            page_addr,
            new_phys.0,
            new_flags,
            before.available,
            after.available,
        );
        lemma_still_sound(before, copied_before, page_addr, after);
    }
    let ghost answer = physical::reply(before, after, Some(new_phys.0), None, None);
    match copied.insert(page_addr) {
        Ok(_) => {},
        Err(e) => {
            proof {
                physical::lemma_one_answer(
                    run,
                    before,
                    copied_before,
                    answer,
                    after,
                    copied_before,
                    Err(e),
                );
            }
            return Err(e);
        },
    }
    proof {
        assert(copied@[copied_before.len() as int] == page_addr);
        assert forall|j: u64| #[trigger] copied_before.contains(j) implies copied@.contains(j) by {
            let i = choose|i: int| 0 <= i < copied_before.len() && copied_before[i] == j;
            assert(copied@[i] == j);
        }
        assert forall|j: u64| #[trigger] copied@.contains(j) implies {
            &&& after.entries.contains_key(j)
            &&& after.entries[j].size == S::BASE
            &&& paging::private(after.entries, j)
        } by {
            if j != page_addr {
                lemma_push_contains(copied_before, page_addr, j);
                assert(copied_before.contains(j));
            }
        }
        assert(after.owned(copied@).subset_of(before.owned(copied_before))) by {
            assert forall|a: int| #[trigger] after.owned(copied@).contains(a) implies before.owned(
                copied_before,
            ).contains(a) by {
                if !after.available.contains(a) {
                    let j = choose|j: u64|
                        #![trigger copied@.contains(j)]
                        copied@.contains(j) && after.entries[j].phys <= a < after.entries[j].phys
                            + paging::base::<S>();
                    if j != page_addr {
                        lemma_push_contains(copied_before, page_addr, j);
                        assert(copied_before.contains(j));
                    } else {
                        assert(before.available.contains(a));
                    }
                }
            }
        }
    }
    proof {
        physical::lemma_one_answer(run, before, copied_before, answer, after, copied@, Ok(()));
    }
    Ok(PhysAddr::new(new_phys.as_u64() + (virt.as_u64() - page_addr)))
}

/// Where one page that was not copied has changed, the copied pages are still in order.
proof fn lemma_still_sound<S: PageSize>(
    before: Snapshot<S>,
    copied: Seq<u64>,
    page: u64,
    after: Snapshot<S>,
)
    requires
        before.sound(copied),
        !copied.contains(page),
        paging::wf_entries(after.entries),
        paging::unshared(after.entries, after.available),
        forall|j: u64|
            j != page && #[trigger] before.entries.contains_key(j) ==> {
                &&& after.entries.contains_key(j)
                &&& after.entries[j] == before.entries[j]
                &&& paging::private(before.entries, j) ==> paging::private(after.entries, j)
            },
    ensures
        after.sound(copied),
{
    assert forall|k: u64| #[trigger] copied.contains(k) implies {
        &&& after.entries.contains_key(k)
        &&& after.entries[k].size == S::BASE
        &&& paging::private(after.entries, k)
    } by {
        assert(before.entries.contains_key(k));
    }
}

/// What is on a list after adding something else was on it before.
proof fn lemma_push_contains(list: Seq<u64>, added: u64, x: u64)
    requires
        list.push(added).contains(x),
        x != added,
    ensures
        list.contains(x),
{
    let i = choose|i: int| 0 <= i < list.push(added).len() && list.push(added)[i] == x;
    assert(list[i] == x);
}

/// ELF machine type of x86_64.
pub const EM_X86_64: u16 = 62;

/// ELF machine type of 64-bit ARM.
pub const EM_AARCH64: u16 = 183;

/// ELF machine type of RISC-V.
pub const EM_RISCV: u16 = 243;

/// Relocation type of x86_64 that adds the load base.
pub const R_X86_64_RELATIVE: u32 = 8;

/// Relocation type of 64-bit ARM that adds the load base.
pub const R_AARCH64_RELATIVE: u32 = 1027;

/// Relocation type of RISC-V that adds the load base.
pub const R_RISCV_RELATIVE: u32 = 3;

/// The RELATIVE relocation type of each supported machine.
pub open spec fn relative_type(machine: u16) -> Option<u32> {
    if machine == EM_X86_64 {
        Some(R_X86_64_RELATIVE)
    } else if machine == EM_AARCH64 {
        Some(R_AARCH64_RELATIVE)
    } else if machine == EM_RISCV {
        Some(R_RISCV_RELATIVE)
    } else {
        None
    }
}

/// Look up the expected RELATIVE relocation type for a given ELF machine.
pub fn relative_reloc_type(machine: u16) -> (r: Option<u32>)
    ensures
        r == relative_type(machine),
{
    match machine {
        EM_X86_64 => Some(R_X86_64_RELATIVE),
        EM_AARCH64 => Some(R_AARCH64_RELATIVE),
        EM_RISCV => Some(R_RISCV_RELATIVE),
        _ => None,
    }
}

/// What reading eight bytes of virtual memory gives.
pub enum Fetch {
    /// The page that holds the first byte is not mapped.
    Unmapped,
    /// The access runs over the end of the page, into whatever frame follows in physical
    /// memory: virtual memory does not determine what is read.
    Crossing,
    /// The little-endian word at the address.
    Word(u64),
}

/// The word at `addr` in virtual memory.
pub open spec fn fetch<S: PageSize>(vm: Map<int, Cell<S>>, addr: u64) -> Fetch {
    if !vm.contains_key(page_of::<S>(addr) as int) {
        Fetch::Unmapped
    } else if crosses::<S>(addr) {
        Fetch::Crossing
    } else {
        Fetch::Word(arith::le_value(Seq::new(8, |i: int| vm[addr + i].byte)))
    }
}

/// Memory as relocation sees it: words at virtual addresses.
pub trait Words: Sized {
    /// The word at an address.
    spec fn word(self, addr: u64) -> Fetch;

    /// Writing a word at an address.
    spec fn with_word(self, addr: u64, value: u64) -> Run<Self>;
}

/// Virtual memory, and the pages of it that were copied for writing. It does not depend on
/// which frames the platform hands out, but a word that runs over the end of its page is
/// beyond it.
pub struct Virtual<S> {
    pub vm: Map<int, Cell<S>>,
    pub copied: Seq<u64>,
}

impl<S: PageSize> Words for Virtual<S> {
    open spec fn word(self, addr: u64) -> Fetch {
        fetch(self.vm, addr)
    }

    open spec fn with_word(self, addr: u64, value: u64) -> Run<Self> {
        put(self.vm, self.copied, addr, value)
    }
}

impl<S: PageSize> Physical<S> {
    /// The physical address of the byte at an address whose page is mapped.
    pub open spec fn phys(self, addr: u64) -> int {
        let page = page_of::<S>(addr);
        paging::phys_at(self.entries, page as int) + (addr - page)
    }

    /// A page is made writable for relocation: one that was not copied yet moves to a frame of
    /// its own, with its bytes, and is recorded.
    pub open spec fn with_owned_page(self, page: u64) -> Run<Self> {
        let old = self.entries[paging::page_at(self.entries, page as int)];
        let flags = PageFlags { writable: true, executable: old.flags.executable };
        let bytes = paging::bytes_at(
            self.memory,
            paging::phys_at(self.entries, page as int),
            paging::base::<S>() as nat,
        );
        if !paging::mapped(self.entries, page as int) {
            Run::Stopped {
                error: LoadError::InvalidElf("page not mapped during relocation"),
                memory: self,
            }
        } else if self.copied.contains(page) {
            Run::Done(self)
        } else {
            match self.with_moved_page(page, flags, bytes, "failed to unmap page during CoW") {
                Run::Done(moved) => if list_full(self.copied, page) {
                    Run::Stopped { error: LoadError::TooManyCopiedPages, memory: moved }
                } else {
                    Run::Done(Physical { copied: self.copied.push(page), ..moved })
                },
                stop => stop,
            }
        }
    }

    /// A word is written to a page that is writable for relocation.
    pub open spec fn with_written_word(self, addr: u64, value: u64) -> Self {
        Physical {
            memory: paging::stored(self.memory, self.phys(addr), arith::le_bytes(value)),
            ..self
        }
    }
}

/// Physical memory describes every word: one that runs over the end of its page goes on in the
/// frame that follows in physical memory.
impl<S: PageSize> Words for Physical<S> {
    open spec fn word(self, addr: u64) -> Fetch {
        if !paging::mapped(self.entries, page_of::<S>(addr) as int) {
            Fetch::Unmapped
        } else {
            Fetch::Word(arith::le_value(paging::bytes_at(self.memory, self.phys(addr), 8)))
        }
    }

    open spec fn with_word(self, addr: u64, value: u64) -> Run<Self> {
        match self.with_owned_page(page_of::<S>(addr)) {
            Run::Done(owned) => Run::Done(owned.with_written_word(addr, value)),
            stop => stop,
        }
    }
}

/// The virtual memory of a state.
pub open spec fn seen<S: PageSize>(now: Snapshot<S>, copied: Seq<u64>) -> Virtual<S> {
    Virtual { vm: now.vm(), copied }
}

/// Writing the word `value` at `addr` in virtual memory.
pub open spec fn put<S: PageSize>(
    vm: Map<int, Cell<S>>,
    copied: Seq<u64>,
    addr: u64,
    value: u64,
) -> Run<Virtual<S>> {
    let page = page_of::<S>(addr);
    if !vm.contains_key(page as int) {
        Run::Stopped {
            error: LoadError::InvalidElf("page not mapped during relocation"),
            memory: Virtual { vm, copied },
        }
    } else if list_full(copied, page) {
        Run::Stopped {
            error: LoadError::TooManyCopiedPages,
            memory: Virtual { vm: with_owned_page(vm, copied, page), copied },
        }
    } else if crosses::<S>(addr) {
        Run::Crossing
    } else {
        Run::Done(
            Virtual {
                vm: paging::vm_stored(
                    with_owned_page(vm, copied, page),
                    addr as int,
                    arith::le_bytes(value),
                ),
                copied: with_page(copied, page),
            },
        )
    }
}

/// The result and the state after relocating agree with what the run over virtual memory says.
///
/// The platform may refuse a frame or a mapping at any step that asks for one, and then the error
/// says so: [`physical::tracks`] tells which request that is and what was done before it. The page
/// table stays valid whatever happens. Nothing else is said of a run in which a word crosses a
/// page boundary.
pub open spec fn follows<S: PageSize>(
    run: Run<Virtual<S>>,
    before: Snapshot<S>,
    copied: Seq<u64>,
    after: Snapshot<S>,
    copied_after: Seq<u64>,
    r: Result<(), LoadError>,
) -> bool {
    &&& after.sound(copied_after)
    &&& r is Ok ==> before.quiet(after)
    &&& match run {
        Run::Done(Virtual { vm, copied: c }) => {
            &&& before.kept(copied, after)
            &&& match r {
                Ok(_) => {
                    &&& after.vm() == vm
                    &&& copied_after == c
                    &&& after.owned(copied_after).subset_of(before.owned(copied))
                },
                Err(e) => before.refused_by(after, e),
            }
        },
        Run::Stopped { error, memory: Virtual { vm, copied: c } } => {
            &&& before.kept(copied, after)
            &&& match r {
                Ok(_) => false,
                Err(e) => before.refused_by(after, e) || {
                    &&& e == error
                    &&& before.quiet(after)
                    &&& after.vm() == vm
                    &&& copied_after == c
                },
            }
        },
        Run::Crossing => true,
    }
}

/// Like [`follows`], for a run that starts without copied pages and keeps its list of them to
/// itself.
pub open spec fn ends_as<S: PageSize>(
    run: Run<Virtual<S>>,
    before: Snapshot<S>,
    after: Snapshot<S>,
    r: Result<(), LoadError>,
) -> bool {
    exists|copied: Seq<u64>| #[trigger] follows(run, before, Seq::empty(), after, copied, r)
}

/// Read a u64 value from a virtual address in the kernel's address space.
///
/// Translates the virtual address through the page table, then reads
/// from the corresponding physical address. The least significant byte
/// comes first, the byte order of x86_64.
pub fn read_u64_at<S: PageSize, P: PageTable<S>, M: PhysicalMemoryAccess>(
    virt: VirtAddr,
    page_table: &P,
    phys_mem: &M,
) -> (r: Result<u64, LoadError>)
    requires
        paging::wf_entries(page_table.entries()),
    ensures
        ({
            let entries = page_table.entries();
            let page = page_of::<S>(virt.0);
            let vm = paging::virtual_memory(entries, phys_mem.memory());
            &&& !paging::mapped(entries, page as int) ==> r == Err::<u64, LoadError>(
                LoadError::InvalidElf("address not mapped"),
            )
            &&& paging::mapped(entries, page as int) ==> r == Ok::<u64, LoadError>(
                arith::le_value(
                    paging::bytes_at(
                        phys_mem.memory(),
                        paging::phys_at(entries, page as int) + (virt.0 - page),
                        8,
                    ),
                ),
            )
            &&& match fetch(vm, virt.0) {
                Fetch::Unmapped => r == Err::<u64, LoadError>(
                    LoadError::InvalidElf("address not mapped"),
                ),
                Fetch::Word(word) => r == Ok::<u64, LoadError>(word),
                Fetch::Crossing => true,
            }
        }),
{
    let base_size: u64 = S::BASE.bytes();
    let page_addr: u64 = arith::align_down(virt.as_u64(), base_size);
    let offset: u64 = virt.as_u64() - page_addr;
    let ghost entries = page_table.entries();
    assert(page_addr == page_of::<S>(virt.0));
    let phys: PhysAddr = match page_table.translate(VirtAddr::new(page_addr)) {
        Some((phys, _, _)) => phys,
        None => {
            return Err(LoadError::InvalidElf("address not mapped"));
        },
    };
    let ghost k = choose|k: u64|
        {
            &&& #[trigger] paging::covers(entries, k, page_addr as int)
            &&& phys.0 == entries[k].phys + (page_addr - k)
        };
    proof {
        paging::lemma_page_at(entries, k, page_addr as int);
        paging::lemma_block_in_page(entries, k, page_addr as int, page_addr as int);
        assert(paging::wf_entry(k, entries[k]));
    }
    let phys_target = PhysAddr::new(phys.as_u64() + offset);
    let mut buf: [u8; 8] = [0u8; 8];
    phys_mem.read_phys(phys_target, &mut buf);
    proof {
        if !crosses::<S>(virt.0) {
            let vm = paging::virtual_memory(entries, phys_mem.memory());
            let read = Seq::new(8, |i: int| vm[virt.0 + i].byte);
            assert forall|i: int| 0 <= i < 8 implies #[trigger] buf@[i] == read[i] by {
                assert(paging::covers(entries, k, virt.0 + i));
                paging::lemma_page_at(entries, k, virt.0 + i);
            }
            assert(buf@ =~= read);
        }
    }
    Ok(arith::u64_from_le(&buf))
}

/// Write a u64 value to a virtual address in the kernel's address space,
/// using CoW to ensure the page is privately owned.
///
/// The least significant byte comes first, the byte order of x86_64.
pub fn write_u64_at<
    S: PageSize,
    P: PageTable<S>,
    A: FrameAllocator<S>,
    M: PhysicalMemoryAccess,
>(
    virt: VirtAddr,
    value: u64,
    page_table: &mut P,
    allocator: &mut A,
    phys_mem: &mut M,
    copied: &mut CopiedPages,
) -> (r: Result<(), LoadError>)
    requires
        state::snapshot(*old(page_table), *old(allocator), *old(phys_mem)).sound(old(copied)@),
    ensures
        ({
            let before = state::snapshot(*old(page_table), *old(allocator), *old(phys_mem));
            let after = state::snapshot(*final(page_table), *final(allocator), *final(phys_mem));
            &&& follows(
                put(before.vm(), old(copied)@, virt.0, value),
                before,
                old(copied)@,
                after,
                final(copied)@,
                r,
            )
            &&& physical::tracks(
                |memory: Physical<S>| memory.with_word(virt.0, value),
                before,
                old(copied)@,
                after,
                final(copied)@,
                r,
            )
        }),
{
    let ghost before = state::snapshot(*page_table, *allocator, *phys_mem);
    let ghost copied_before = copied@;
    let ghost page = page_of::<S>(virt.0);
    let ghost run = |memory: Physical<S>| memory.with_word(virt.0, value);
    let ghost write = |memory: Physical<S>|
        Run::<Physical<S>>::Done(memory.with_written_word(virt.0, value));
    let owned = ensure_page_writable(virt, page_table, allocator, phys_mem, copied);
    let ghost mid = state::snapshot(*page_table, *allocator, *phys_mem);
    proof {
        physical::lemma_idle(before, copied_before);
        physical::lemma_tracks_step(
            run,
            run,
            before,
            copied_before,
            before,
            copied_before,
            |memory: Physical<S>| memory.with_owned_page(page),
            write,
            mid,
            copied@,
            physical::outcome(owned),
        );
    }
    let phys: PhysAddr = match owned {
        Ok(phys) => phys,
        Err(e) => {
            return Err(e);
        },
    };
    let bytes: [u8; 8] = arith::u64_to_le(value);
    phys_mem.write_phys(phys, &bytes);
    let ghost after = state::snapshot(*page_table, *allocator, *phys_mem);
    proof {
        arith::lemma_floor_facts(virt.0 as int, paging::base::<S>());
        assert(copied@.contains(page)) by {
            if !copied_before.contains(page) {
                assert(copied@[copied_before.len() as int] == page);
            }
        }
        assert(after.sound(copied@));
        assert(paging::wf_entry(page, mid.entries[page]));
        assert(paging::covers(mid.entries, page, page as int));
        paging::lemma_page_at(mid.entries, page, page as int);
        physical::lemma_tracks_end(
            run,
            write,
            before,
            copied_before,
            mid,
            copied@,
            after,
            copied@,
            Ok(()),
        );
        if !crosses::<S>(virt.0) {
            paging::lemma_write_page(
                mid.entries,
                mid.memory,
                page,
                virt.0 as int,
                arith::le_bytes(value),
            );
            assert forall|a: int| !before.owned(copied_before).contains(a) implies
                #[trigger] after.memory[a] == before.memory[a] by {
                if phys.0 <= a < phys.0 + 8 {
                    assert(mid.owned(copied@).contains(a));
                }
                assert(mid.memory[a] == before.memory[a]);
            }
            assert(after.owned(copied@) =~= mid.owned(copied@));
        }
    }
    Ok(())
}

/// Applying the RELA entry at `at`: the word at the entry's offset becomes the load base plus
/// the entry's addend.
pub open spec fn rela_step<W: Words>(
    memory: W,
    at: u64,
    load_base: i64,
    expected: u32,
) -> Run<W> {
    match (
        memory.word(at),
        memory.word(arith::wrapped_sum(at, 8)),
        memory.word(arith::wrapped_sum(at, 16)),
    ) {
        (Fetch::Word(offset), Fetch::Word(info), Fetch::Word(addend)) => if info / 0x1_0000_0000
            != 0 {
            Run::Stopped {
                error: LoadError::InvalidElf(
                    "relocations using the symbol table are not supported",
                ),
                memory,
            }
        } else if info % 0x1_0000_0000 != expected {
            Run::Stopped {
                error: LoadError::UnsupportedRelocation((info % 0x1_0000_0000) as u32),
                memory,
            }
        } else {
            memory.with_word(arith::rebased(offset, load_base), arith::rebased(addend, load_base))
        },
        (Fetch::Unmapped, _, _)
        | (Fetch::Word(_), Fetch::Unmapped, _)
        | (Fetch::Word(_), Fetch::Word(_), Fetch::Unmapped) => Run::Stopped {
            error: LoadError::InvalidElf("address not mapped"),
            memory,
        },
        _ => Run::Crossing,
    }
}

/// Applying the RELA entries from number `i` on of a table of `n` entries, one after another.
pub open spec fn rela_run<W: Words>(
    memory: W,
    table: u64,
    i: int,
    n: int,
    load_base: i64,
    expected: u32,
) -> Run<W>
    decreases n - i,
{
    if i >= n {
        Run::Done(memory)
    } else {
        match rela_step(memory, arith::wrapped_sum(table, i * 24), load_base, expected) {
            Run::Done(next) => rela_run(
                next,
                table,
                i + 1,
                n,
                load_base,
                expected,
            ),
            stop => stop,
        }
    }
}

/// Applying a whole RELA table.
pub open spec fn rela_table_run<W: Words>(
    memory: W,
    rela_offset: u64,
    rela_size: u64,
    rela_ent: u64,
    load_base: i64,
    e_machine: u16,
) -> Run<W> {
    match relative_type(e_machine) {
        None => Run::Stopped { error: LoadError::UnsupportedMachine(e_machine), memory },
        Some(expected) => if rela_ent != 24 {
            Run::Stopped {
                error: LoadError::InvalidElf("unexpected RELA entry size (expected 24)"),
                memory,
            }
        } else {
            rela_run(
                memory,
                arith::rebased(rela_offset, load_base),
                0,
                rela_size as int / 24,
                load_base,
                expected,
            )
        },
    }
}

/// The state of a run of relocations that is still going: the rest of the run started in
/// `now` ends as the whole run, unless a word has crossed a page boundary.
pub open spec fn on_track<S: PageSize>(
    whole: Run<Virtual<S>>,
    rest: Run<Virtual<S>>,
    before: Snapshot<S>,
    copied: Seq<u64>,
    now: Snapshot<S>,
    copied_now: Seq<u64>,
) -> bool {
    &&& before.quiet(now)
    &&& now.sound(copied_now)
    &&& whole is Crossing || {
        &&& whole == rest
        &&& before.kept(copied, now)
        &&& now.owned(copied_now).subset_of(before.owned(copied))
    }
}

/// One more step that follows its own run keeps a run on track, or ends it as the whole run
/// says.
pub proof fn lemma_step<S: PageSize>(
    whole: Run<Virtual<S>>,
    rest: Run<Virtual<S>>,
    before: Snapshot<S>,
    copied: Seq<u64>,
    now: Snapshot<S>,
    copied_now: Seq<u64>,
    step: Run<Virtual<S>>,
    then: Run<Virtual<S>>,
    next: Snapshot<S>,
    copied_next: Seq<u64>,
    r: Result<(), LoadError>,
)
    requires
        on_track(whole, rest, before, copied, now, copied_now),
        follows(step, now, copied_now, next, copied_next, r),
        match step {
            Run::Done(_) => r is Ok ==> then == rest,
            stop => rest == stop,
        },
    ensures
        r is Ok ==> on_track(whole, then, before, copied, next, copied_next),
        r is Err ==> follows(whole, before, copied, next, copied_next, r),
{
    if !(whole is Crossing) && !(step is Crossing) {
        state::lemma_kept_chain(before, copied, now, copied_now, next);
    }
}

/// Apply the RELA entry at the given virtual address.
pub fn apply_rela_entry<
    S: PageSize,
    P: PageTable<S>,
    A: FrameAllocator<S>,
    M: PhysicalMemoryAccess,
>(
    entry_vaddr: u64,
    load_base: i64,
    expected_type: u32,
    page_table: &mut P,
    allocator: &mut A,
    phys_mem: &mut M,
    copied: &mut CopiedPages,
) -> (r: Result<(), LoadError>)
    requires
        state::snapshot(*old(page_table), *old(allocator), *old(phys_mem)).sound(old(copied)@),
    ensures
        ({
            let before = state::snapshot(*old(page_table), *old(allocator), *old(phys_mem));
            let after = state::snapshot(*final(page_table), *final(allocator), *final(phys_mem));
            &&& follows(
                rela_step(seen(before, old(copied)@), entry_vaddr, load_base, expected_type),
                before,
                old(copied)@,
                after,
                final(copied)@,
                r,
            )
            &&& physical::tracks(
                |memory: Physical<S>| rela_step(memory, entry_vaddr, load_base, expected_type),
                before,
                old(copied)@,
                after,
                final(copied)@,
                r,
            )
        }),
{
    let ghost before = state::snapshot(*page_table, *allocator, *phys_mem);
    let ghost copied_before = copied@;
    proof {
        physical::lemma_idle(before, copied_before);
    }
    // Read the three fields of the Rela entry: offset, info, addend.
    let r_offset: u64 = match read_u64_at(VirtAddr::new(entry_vaddr), page_table, phys_mem) {
        Ok(word) => word,
        Err(e) => {
            return Err(e);
        },
    };
    let r_info: u64 = match read_u64_at(
        VirtAddr::new(arith::wrapping_sum(entry_vaddr, 8)),
        page_table,
        phys_mem,
    ) {
        Ok(word) => word,
        Err(e) => {
            return Err(e);
        },
    };
    let r_addend: u64 = match read_u64_at(
        VirtAddr::new(arith::wrapping_sum(entry_vaddr, 16)),
        page_table,
        phys_mem,
    ) {
        Ok(word) => word,
        Err(e) => {
            return Err(e);
        },
    };
    let r_type: u32 = (r_info % 0x1_0000_0000) as u32;
    let r_sym: u32 = (r_info / 0x1_0000_0000) as u32;
    if r_sym != 0 {
        return Err(LoadError::InvalidElf("relocations using the symbol table are not supported"));
    }
    if r_type != expected_type {
        return Err(LoadError::UnsupportedRelocation(r_type));
    }
    // R_*_RELATIVE: value = load_base + addend

    let value: u64 = arith::rebase(r_addend, load_base);
    let dest_vaddr: u64 = arith::rebase(r_offset, load_base);
    let written = write_u64_at(
        VirtAddr::new(dest_vaddr),
        value,
        page_table,
        allocator,
        phys_mem,
        copied,
    );
    proof {
        physical::lemma_tracks_same(
            |memory: Physical<S>| memory.with_word(dest_vaddr, value),
            |memory: Physical<S>| rela_step(memory, entry_vaddr, load_base, expected_type),
            before,
            copied_before,
            state::snapshot(*page_table, *allocator, *phys_mem),
            copied@,
            written,
        );
    }
    written
}

/// Process RELA relocations from the dynamic segment.
///
/// `rela_offset`: virtual address (pre-load-base) of the relocation table
/// `rela_size`: total size in bytes of the relocation table
/// `rela_ent`: size of each entry
/// `load_base`: the virtual address offset applied to the kernel
/// `e_machine`: ELF machine type from the header
pub fn process_rela<
    S: PageSize,
    P: PageTable<S>,
    A: FrameAllocator<S>,
    M: PhysicalMemoryAccess,
>(
    rela_offset: u64,
    rela_size: u64,
    rela_ent: u64,
    load_base: i64,
    e_machine: u16,
    page_table: &mut P,
    allocator: &mut A,
    phys_mem: &mut M,
    copied: &mut CopiedPages,
) -> (r: Result<(), LoadError>)
    requires
        state::snapshot(*old(page_table), *old(allocator), *old(phys_mem)).sound(old(copied)@),
    ensures
        ({
            let before = state::snapshot(*old(page_table), *old(allocator), *old(phys_mem));
            let after = state::snapshot(*final(page_table), *final(allocator), *final(phys_mem));
            &&& follows(
                rela_table_run(
                    seen(before, old(copied)@),
                    rela_offset,
                    rela_size,
                    rela_ent,
                    load_base,
                    e_machine,
                ),
                before,
                old(copied)@,
                after,
                final(copied)@,
                r,
            )
            &&& physical::tracks(
                |memory: Physical<S>|
                    rela_table_run(
                        memory,
                        rela_offset,
                        rela_size,
                        rela_ent,
                        load_base,
                        e_machine,
                    ),
                before,
                old(copied)@,
                after,
                final(copied)@,
                r,
            )
        }),
{
    let ghost before = state::snapshot(*page_table, *allocator, *phys_mem);
    let ghost copied_before = copied@;
    proof {
        physical::lemma_idle(before, copied_before);
    }
    let expected_type: u32 = match relative_reloc_type(e_machine) {
        Some(ty) => ty,
        None => {
            return Err(LoadError::UnsupportedMachine(e_machine));
        },
    };
    if rela_ent != 24 {
        return Err(LoadError::InvalidElf("unexpected RELA entry size (expected 24)"));
    }
    let num_entries: u64 = rela_size / rela_ent;
    let table: u64 = arith::rebase(rela_offset, load_base);
    let ghost n = num_entries as int;
    let ghost whole = rela_run(
        seen(before, copied_before),
        table,
        0,
        n,
        load_base,
        expected_type,
    );
    let ghost whole_physical = |memory: Physical<S>|
        rela_table_run(memory, rela_offset, rela_size, rela_ent, load_base, e_machine);
    proof {
        physical::lemma_still_same(
            whole_physical,
            whole_physical,
            |memory: Physical<S>| rela_run(memory, table, 0, n, load_base, expected_type),
            before,
            copied_before,
            before,
            copied_before,
        );
    }
    let mut idx: u64 = 0;
    while idx < num_entries
        invariant
            idx <= num_entries,
            num_entries == rela_size / 24,
            n == num_entries,
            on_track(
                whole,
                rela_run(
                    seen(state::snapshot(*page_table, *allocator, *phys_mem), copied@),
                    table,
                    idx as int,
                    n,
                    load_base,
                    expected_type,
                ),
                before,
                copied_before,
                state::snapshot(*page_table, *allocator, *phys_mem),
                copied@,
            ),
            physical::still_tracks(
                whole_physical,
                |memory: Physical<S>|
                    rela_run(memory, table, idx as int, n, load_base, expected_type),
                before,
                copied_before,
                state::snapshot(*page_table, *allocator, *phys_mem),
                copied@,
            ),
            before == state::snapshot(*old(page_table), *old(allocator), *old(phys_mem)),
            copied_before == old(copied)@,
            relative_type(e_machine) == Some(expected_type),
            rela_ent == 24,
            table == arith::rebased(rela_offset, load_base),
            whole == rela_run(
                seen(before, copied_before),
                table,
                0,
                n,
                load_base,
                expected_type,
            ),
            whole_physical == (|memory: Physical<S>|
                rela_table_run(memory, rela_offset, rela_size, rela_ent, load_base, e_machine)),
        decreases num_entries - idx,
    {
        let ghost now = state::snapshot(*page_table, *allocator, *phys_mem);
        let ghost copied_now = copied@;
        let entry_vaddr: u64 = arith::wrapping_sum(table, idx * 24);
        let applied = apply_rela_entry(
            entry_vaddr,
            load_base,
            expected_type,
            page_table,
            allocator,
            phys_mem,
            copied,
        );
        proof {
            let next = state::snapshot(*page_table, *allocator, *phys_mem);
            lemma_step(
                whole,
                rela_run(
                    seen(now, copied_now),
                    table,
                    idx as int,
                    n,
                    load_base,
                    expected_type,
                ),
                before,
                copied_before,
                now,
                copied_now,
                rela_step(seen(now, copied_now), entry_vaddr, load_base, expected_type),
                rela_run(seen(next, copied@), table, idx + 1, n, load_base, expected_type),
                next,
                copied@,
                applied,
            );
            physical::lemma_tracks_step(
                whole_physical,
                |memory: Physical<S>|
                    rela_run(memory, table, idx as int, n, load_base, expected_type),
                before,
                copied_before,
                now,
                copied_now,
                |memory: Physical<S>| rela_step(memory, entry_vaddr, load_base, expected_type),
                |memory: Physical<S>|
                    rela_run(memory, table, idx + 1, n, load_base, expected_type),
                next,
                copied@,
                applied,
            );
        }
        match applied {
            Ok(_) => {},
            Err(e) => {
                return Err(e);
            },
        }
        idx = idx + 1;
    }
    proof {
        let now = state::snapshot(*page_table, *allocator, *phys_mem);
        physical::lemma_tracks_end(
            whole_physical,
            |memory: Physical<S>|
                rela_run(memory, table, idx as int, n, load_base, expected_type),
            before,
            copied_before,
            now,
            copied@,
            now,
            copied@,
            Ok(()),
        );
    }
    Ok(())
}

/// Adding the load base to the word at `addr`.
pub open spec fn adjust<W: Words>(
    memory: W,
    addr: u64,
    load_base: i64,
) -> Run<W> {
    match memory.word(addr) {
        Fetch::Unmapped => Run::Stopped {
            error: LoadError::InvalidElf("address not mapped"),
            memory,
        },
        Fetch::Crossing => Run::Crossing,
        Fetch::Word(word) => memory.with_word(addr, arith::rebased(word, load_base)),
    }
}

/// Adding the load base to the words from `addr` on whose bit in `bitmap` is set, lowest bit
/// first.
pub open spec fn bitmap_run<W: Words>(
    memory: W,
    addr: u64,
    bitmap: u64,
    load_base: i64,
) -> Run<W>
    decreases bitmap,
{
    if bitmap == 0 {
        Run::Done(memory)
    } else if bitmap % 2 == 0 {
        bitmap_run(memory, arith::wrapped_sum(addr, 8), bitmap / 2, load_base)
    } else {
        match adjust(memory, addr, load_base) {
            Run::Done(next) => bitmap_run(
                next,
                arith::wrapped_sum(addr, 8),
                bitmap / 2,
                load_base,
            ),
            stop => stop,
        }
    }
}

/// Applying one RELR entry: an even entry names one word, an odd entry names some of the 63 words
/// from `base` on.
pub open spec fn relr_entry_run<W: Words>(
    memory: W,
    entry: u64,
    base: u64,
    load_base: i64,
) -> Run<W> {
    if entry % 2 == 0 {
        adjust(memory, arith::rebased(entry, load_base), load_base)
    } else {
        bitmap_run(memory, base, entry / 2, load_base)
    }
}

/// Where the words of the next bitmap start: behind the words of this entry.
pub open spec fn relr_next_base(entry: u64, base: u64, load_base: i64) -> u64 {
    if entry % 2 == 0 {
        arith::wrapped_sum(arith::rebased(entry, load_base), 8)
    } else {
        arith::wrapped_sum(base, 504)
    }
}

/// Applying the RELR entries from number `i` on of a table of `n` entries.
pub open spec fn relr_run<W: Words>(
    memory: W,
    base: u64,
    table: u64,
    i: int,
    n: int,
    load_base: i64,
) -> Run<W>
    decreases n - i,
{
    if i >= n {
        Run::Done(memory)
    } else {
        match memory.word(arith::wrapped_sum(table, i * 8)) {
            Fetch::Unmapped => Run::Stopped {
                error: LoadError::InvalidElf("address not mapped"),
                memory,
            },
            Fetch::Crossing => Run::Crossing,
            Fetch::Word(entry) => match relr_entry_run(memory, entry, base, load_base) {
                Run::Done(next) => relr_run(
                    next,
                    relr_next_base(entry, base, load_base),
                    table,
                    i + 1,
                    n,
                    load_base,
                ),
                stop => stop,
            },
        }
    }
}

/// Applying a whole RELR table.
pub open spec fn relr_table_run<W: Words>(
    memory: W,
    relr_vaddr: u64,
    relr_size: u64,
    relr_ent: u64,
    load_base: i64,
) -> Run<W> {
    if relr_ent != 8 {
        Run::Stopped {
            error: LoadError::InvalidElf("unexpected RELR entry size (expected 8)"),
            memory,
        }
    } else {
        relr_run(
            memory,
            0,
            arith::rebased(relr_vaddr, load_base),
            0,
            relr_size as int / 8,
            load_base,
        )
    }
}

/// Apply a single RELATIVE relocation at the given virtual address:
/// read the current value, add load_base, write it back.
pub fn apply_relative_reloc<
    S: PageSize,
    P: PageTable<S>,
    A: FrameAllocator<S>,
    M: PhysicalMemoryAccess,
>(
    virt_addr: u64,
    load_base: i64,
    page_table: &mut P,
    allocator: &mut A,
    phys_mem: &mut M,
    copied: &mut CopiedPages,
) -> (r: Result<(), LoadError>)
    requires
        state::snapshot(*old(page_table), *old(allocator), *old(phys_mem)).sound(old(copied)@),
    ensures
        ({
            let before = state::snapshot(*old(page_table), *old(allocator), *old(phys_mem));
            let after = state::snapshot(*final(page_table), *final(allocator), *final(phys_mem));
            &&& follows(
                adjust(seen(before, old(copied)@), virt_addr, load_base),
                before,
                old(copied)@,
                after,
                final(copied)@,
                r,
            )
            &&& physical::tracks(
                |memory: Physical<S>| adjust(memory, virt_addr, load_base),
                before,
                old(copied)@,
                after,
                final(copied)@,
                r,
            )
        }),
{
    let ghost before = state::snapshot(*page_table, *allocator, *phys_mem);
    let ghost copied_before = copied@;
    proof {
        physical::lemma_idle(before, copied_before);
    }
    let current: u64 = match read_u64_at(VirtAddr::new(virt_addr), page_table, phys_mem) {
        Ok(word) => word,
        Err(e) => {
            return Err(e);
        },
    };
    let relocated: u64 = arith::rebase(current, load_base);
    let written = write_u64_at(
        VirtAddr::new(virt_addr),
        relocated,
        page_table,
        allocator,
        phys_mem,
        copied,
    );
    proof {
        physical::lemma_tracks_same(
            |memory: Physical<S>| memory.with_word(virt_addr, relocated),
            |memory: Physical<S>| adjust(memory, virt_addr, load_base),
            before,
            copied_before,
            state::snapshot(*page_table, *allocator, *phys_mem),
            copied@,
            written,
        );
    }
    written
}

/// Apply the relocations of one RELR bitmap: for each set bit `i`, the word at `base + i * 8`.
pub fn apply_bitmap<
    S: PageSize,
    P: PageTable<S>,
    A: FrameAllocator<S>,
    M: PhysicalMemoryAccess,
>(
    base: u64,
    bitmap: u64,
    load_base: i64,
    page_table: &mut P,
    allocator: &mut A,
    phys_mem: &mut M,
    copied: &mut CopiedPages,
) -> (r: Result<(), LoadError>)
    requires
        state::snapshot(*old(page_table), *old(allocator), *old(phys_mem)).sound(old(copied)@),
    ensures
        ({
            let before = state::snapshot(*old(page_table), *old(allocator), *old(phys_mem));
            let after = state::snapshot(*final(page_table), *final(allocator), *final(phys_mem));
            &&& follows(
                bitmap_run(seen(before, old(copied)@), base, bitmap, load_base),
                before,
                old(copied)@,
                after,
                final(copied)@,
                r,
            )
            &&& physical::tracks(
                |memory: Physical<S>| bitmap_run(memory, base, bitmap, load_base),
                before,
                old(copied)@,
                after,
                final(copied)@,
                r,
            )
        }),
{
    let ghost before = state::snapshot(*page_table, *allocator, *phys_mem);
    let ghost copied_before = copied@;
    let ghost whole = bitmap_run(seen(before, copied_before), base, bitmap, load_base);
    let ghost whole_physical = |memory: Physical<S>| bitmap_run(memory, base, bitmap, load_base);
    proof {
        physical::lemma_idle(before, copied_before);
    }
    let mut left: u64 = bitmap;
    let mut offset: u64 = base;
    while left != 0
        invariant
            on_track(
                whole,
                bitmap_run(
                    seen(state::snapshot(*page_table, *allocator, *phys_mem), copied@),
                    offset,
                    left,
                    load_base,
                ),
                before,
                copied_before,
                state::snapshot(*page_table, *allocator, *phys_mem),
                copied@,
            ),
            physical::still_tracks(
                whole_physical,
                |memory: Physical<S>| bitmap_run(memory, offset, left, load_base),
                before,
                copied_before,
                state::snapshot(*page_table, *allocator, *phys_mem),
                copied@,
            ),
            before == state::snapshot(*old(page_table), *old(allocator), *old(phys_mem)),
            copied_before == old(copied)@,
            whole == bitmap_run(seen(before, copied_before), base, bitmap, load_base),
            whole_physical == (|memory: Physical<S>| bitmap_run(memory, base, bitmap, load_base)),
        decreases left,
    {
        let ghost now = state::snapshot(*page_table, *allocator, *phys_mem);
        let ghost copied_now = copied@;
        let ghost rest = bitmap_run(seen(now, copied_now), offset, left, load_base);
        if left % 2 != 0 {
            let applied = apply_relative_reloc(
                offset,
                load_base,
                page_table,
                allocator,
                phys_mem,
                copied,
            );
            proof {
                let next = state::snapshot(*page_table, *allocator, *phys_mem);
                lemma_step(
                    whole,
                    rest,
                    before,
                    copied_before,
                    now,
                    copied_now,
                    adjust(seen(now, copied_now), offset, load_base),
                    bitmap_run(
                        seen(next, copied@),
                        arith::wrapped_sum(offset, 8),
                        left / 2,
                        load_base,
                    ),
                    next,
                    copied@,
                    applied,
                );
                physical::lemma_tracks_step(
                    whole_physical,
                    |memory: Physical<S>| bitmap_run(memory, offset, left, load_base),
                    before,
                    copied_before,
                    now,
                    copied_now,
                    |memory: Physical<S>| adjust(memory, offset, load_base),
                    |memory: Physical<S>|
                        bitmap_run(memory, arith::wrapped_sum(offset, 8), left / 2, load_base),
                    next,
                    copied@,
                    applied,
                );
            }
            match applied {
                Ok(_) => {},
                Err(e) => {
                    return Err(e);
                },
            }
        } else {
            proof {
                physical::lemma_still_same(
                    whole_physical,
                    |memory: Physical<S>| bitmap_run(memory, offset, left, load_base),
                    |memory: Physical<S>|
                        bitmap_run(memory, arith::wrapped_sum(offset, 8), left / 2, load_base),
                    before,
                    copied_before,
                    now,
                    copied_now,
                );
            }
        }
        left = left / 2;
        offset = arith::wrapping_sum(offset, 8);
    }
    proof {
        let now = state::snapshot(*page_table, *allocator, *phys_mem);
        physical::lemma_tracks_end(
            whole_physical,
            |memory: Physical<S>| bitmap_run(memory, offset, left, load_base),
            before,
            copied_before,
            now,
            copied@,
            now,
            copied@,
            Ok(()),
        );
    }
    Ok(())
}

/// Apply the relocations of one RELR entry.
pub fn apply_relr_entry<
    S: PageSize,
    P: PageTable<S>,
    A: FrameAllocator<S>,
    M: PhysicalMemoryAccess,
>(
    entry: u64,
    base: u64,
    load_base: i64,
    page_table: &mut P,
    allocator: &mut A,
    phys_mem: &mut M,
    copied: &mut CopiedPages,
) -> (r: Result<(), LoadError>)
    requires
        state::snapshot(*old(page_table), *old(allocator), *old(phys_mem)).sound(old(copied)@),
    ensures
        ({
            let before = state::snapshot(*old(page_table), *old(allocator), *old(phys_mem));
            let after = state::snapshot(*final(page_table), *final(allocator), *final(phys_mem));
            &&& follows(
                relr_entry_run(seen(before, old(copied)@), entry, base, load_base),
                before,
                old(copied)@,
                after,
                final(copied)@,
                r,
            )
            &&& physical::tracks(
                |memory: Physical<S>| relr_entry_run(memory, entry, base, load_base),
                before,
                old(copied)@,
                after,
                final(copied)@,
                r,
            )
        }),
{
    let ghost before = state::snapshot(*page_table, *allocator, *phys_mem);
    let ghost copied_before = copied@;
    let ghost run = |memory: Physical<S>| relr_entry_run(memory, entry, base, load_base);
    if entry % 2 == 0 {
        // Even entry: base address. Apply one relocation here.
        let word: u64 = arith::rebase(entry, load_base);
        let applied = apply_relative_reloc(
            word,
            load_base,
            page_table,
            allocator,
            phys_mem,
            copied,
        );
        proof {
            physical::lemma_tracks_same(
                |memory: Physical<S>| adjust(memory, word, load_base),
                run,
                before,
                copied_before,
                state::snapshot(*page_table, *allocator, *phys_mem),
                copied@,
                applied,
            );
        }
        applied
    } else {
        // Odd entry: bit 0 is the marker, bits 1..63 are the bitmap.
        let bitmap: u64 = entry / 2;
        let applied = apply_bitmap(
            base,
            bitmap,
            load_base,
            page_table,
            allocator,
            phys_mem,
            copied,
        );
        proof {
            physical::lemma_tracks_same(
                |memory: Physical<S>| bitmap_run(memory, base, bitmap, load_base),
                run,
                before,
                copied_before,
                state::snapshot(*page_table, *allocator, *phys_mem),
                copied@,
                applied,
            );
        }
        applied
    }
}

/// Process RELR (compact relative) relocations.
///
/// RELR is a compact encoding that only stores offsets (no addend/type).
/// The value at each offset is read, adjusted by load_base, and written back.
///
/// Encoding: a sequence of u64 entries:
/// - If entry is even: it's a base address. Apply one relocation there, and let the base be
///   the word behind it.
/// - If entry is odd: it's a bitmap. For each set bit i (bits 1..63),
///   apply a relocation at base + (i - 1) * 8. Then advance base += 63 * 8.
pub fn process_relr<
    S: PageSize,
    P: PageTable<S>,
    A: FrameAllocator<S>,
    M: PhysicalMemoryAccess,
>(
    relr_vaddr: u64,
    relr_size: u64,
    relr_ent: u64,
    load_base: i64,
    page_table: &mut P,
    allocator: &mut A,
    phys_mem: &mut M,
    copied: &mut CopiedPages,
) -> (r: Result<(), LoadError>)
    requires
        state::snapshot(*old(page_table), *old(allocator), *old(phys_mem)).sound(old(copied)@),
    ensures
        ({
            let before = state::snapshot(*old(page_table), *old(allocator), *old(phys_mem));
            let after = state::snapshot(*final(page_table), *final(allocator), *final(phys_mem));
            &&& follows(
                relr_table_run(
                    seen(before, old(copied)@),
                    relr_vaddr,
                    relr_size,
                    relr_ent,
                    load_base,
                ),
                before,
                old(copied)@,
                after,
                final(copied)@,
                r,
            )
            &&& physical::tracks(
                |memory: Physical<S>|
                    relr_table_run(memory, relr_vaddr, relr_size, relr_ent, load_base),
                before,
                old(copied)@,
                after,
                final(copied)@,
                r,
            )
        }),
{
    let ghost before = state::snapshot(*page_table, *allocator, *phys_mem);
    let ghost copied_before = copied@;
    proof {
        physical::lemma_idle(before, copied_before);
    }
    if relr_ent != 8 {
        return Err(LoadError::InvalidElf("unexpected RELR entry size (expected 8)"));
    }
    let num_entries: u64 = relr_size / relr_ent;
    let table: u64 = arith::rebase(relr_vaddr, load_base);
    let ghost n = num_entries as int;
    let ghost whole = relr_run(seen(before, copied_before), 0, table, 0, n, load_base);
    let ghost whole_physical = |memory: Physical<S>|
        relr_table_run(memory, relr_vaddr, relr_size, relr_ent, load_base);
    proof {
        physical::lemma_still_same(
            whole_physical,
            whole_physical,
            |memory: Physical<S>| relr_run(memory, 0, table, 0, n, load_base),
            before,
            copied_before,
            before,
            copied_before,
        );
    }
    let mut base: u64 = 0;
    let mut idx: u64 = 0;
    while idx < num_entries
        invariant
            idx <= num_entries,
            num_entries == relr_size / 8,
            n == num_entries,
            on_track(
                whole,
                relr_run(
                    seen(state::snapshot(*page_table, *allocator, *phys_mem), copied@),
                    base,
                    table,
                    idx as int,
                    n,
                    load_base,
                ),
                before,
                copied_before,
                state::snapshot(*page_table, *allocator, *phys_mem),
                copied@,
            ),
            physical::still_tracks(
                whole_physical,
                |memory: Physical<S>| relr_run(memory, base, table, idx as int, n, load_base),
                before,
                copied_before,
                state::snapshot(*page_table, *allocator, *phys_mem),
                copied@,
            ),
            before == state::snapshot(*old(page_table), *old(allocator), *old(phys_mem)),
            copied_before == old(copied)@,
            relr_ent == 8,
            table == arith::rebased(relr_vaddr, load_base),
            whole == relr_run(seen(before, copied_before), 0, table, 0, n, load_base),
            whole_physical == (|memory: Physical<S>|
                relr_table_run(memory, relr_vaddr, relr_size, relr_ent, load_base)),
        decreases num_entries - idx,
    {
        let ghost now = state::snapshot(*page_table, *allocator, *phys_mem);
        let ghost copied_now = copied@;
        let ghost rest = relr_run(seen(now, copied_now), base, table, idx as int, n, load_base);
        let ghost rest_physical = |memory: Physical<S>|
            relr_run(memory, base, table, idx as int, n, load_base);
        let entry_vaddr: u64 = arith::wrapping_sum(table, idx * 8);
        let entry: u64 = match read_u64_at(VirtAddr::new(entry_vaddr), page_table, phys_mem) {
            Ok(word) => word,
            Err(e) => {
                proof {
                    physical::lemma_tracks_end(
                        whole_physical,
                        rest_physical,
                        before,
                        copied_before,
                        now,
                        copied_now,
                        now,
                        copied_now,
                        Err(e),
                    );
                }
                return Err(e);
            },
        };
        let applied = apply_relr_entry(
            entry,
            base,
            load_base,
            page_table,
            allocator,
            phys_mem,
            copied,
        );
        let ghost next_base = relr_next_base(entry, base, load_base);
        proof {
            let next = state::snapshot(*page_table, *allocator, *phys_mem);
            if !(fetch(now.vm(), entry_vaddr) is Crossing) {
                lemma_step(
                    whole,
                    rest,
                    before,
                    copied_before,
                    now,
                    copied_now,
                    relr_entry_run(seen(now, copied_now), entry, base, load_base),
                    relr_run(seen(next, copied@), next_base, table, idx + 1, n, load_base),
                    next,
                    copied@,
                    applied,
                );
            }
            physical::lemma_tracks_step(
                whole_physical,
                rest_physical,
                before,
                copied_before,
                now,
                copied_now,
                |memory: Physical<S>| relr_entry_run(memory, entry, base, load_base),
                |memory: Physical<S>| relr_run(memory, next_base, table, idx + 1, n, load_base),
                next,
                copied@,
                applied,
            );
        }
        match applied {
            Ok(_) => {},
            Err(e) => {
                return Err(e);
            },
        }
        if entry % 2 == 0 {
            base = arith::wrapping_sum(arith::rebase(entry, load_base), 8);
        } else {
            // Advance base past the 63 slots covered by this bitmap entry.
            base = arith::wrapping_sum(base, 63 * 8);
        }
        idx = idx + 1;
    }
    proof {
        let now = state::snapshot(*page_table, *allocator, *phys_mem);
        physical::lemma_tracks_end(
            whole_physical,
            |memory: Physical<S>| relr_run(memory, base, table, idx as int, n, load_base),
            before,
            copied_before,
            now,
            copied@,
            now,
            copied@,
            Ok(()),
        );
    }
    Ok(())
}

} // verus!
