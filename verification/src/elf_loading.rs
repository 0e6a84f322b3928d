//! ELF loading logic: LOAD segment mapping, BSS handling, TLS extraction.

use crate::arith;
use crate::elf_file::{
    DynamicEntry, DynamicTable, DynamicView, ElfFile, ElfView, ProgramHeader, DT_RELA, DT_RELAENT,
    DT_RELASZ, DT_RELR, DT_RELRENT, DT_RELRSZ, PF_W, PF_X, PT_DYNAMIC, PT_GNU_RELRO, PT_LOAD,
    PT_TLS,
};
use crate::error::LoadError;
use crate::mapping;
use crate::paging;
use crate::paging::{Cell, PageEntry};
use crate::physical;
use crate::physical::{MapRefusal, Physical, Run};
use crate::relocation;
use crate::relocation::{CopiedPages, Virtual, Words};
use crate::state;
use crate::state::Snapshot;
use crate::traits;
use crate::traits::{
    FrameAllocator, PageFlags, PageSize, PageTable, PhysAddr, PhysicalMemoryAccess, VirtAddr,
};
use crate::zeroed;
use crate::zeroed::map_zeroed_pages;
use crate::TlsTemplate;
use vstd::prelude::*;

verus! {

/// The page flags of a segment.
pub open spec fn segment_flags(p_flags: u32) -> PageFlags {
    PageFlags { writable: p_flags & PF_W != 0, executable: p_flags & PF_X != 0 }
}

/// Convert ELF segment flags to PageFlags.
pub fn elf_flags_to_page_flags(elf_flags: u32) -> (r: PageFlags)
    ensures
        r == segment_flags(elf_flags),
{
    PageFlags { writable: elf_flags & PF_W != 0, executable: elf_flags & PF_X != 0 }
}

/// Virtual memory once the addresses from `start` to `end` are a zeroed section: the rest of
/// the page in which it starts is zeroed and takes the section's flags, and whole zeroed pages
/// follow up to its end.
pub open spec fn bss_run<S: PageSize>(
    vm: Map<int, Cell<S>>,
    start: int,
    end: int,
    flags: PageFlags,
) -> Run<Virtual<S>> {
    let b = paging::base::<S>();
    let page = arith::floor_to(start, b);
    let first_free = arith::ceil_to(start, b);
    let rest = zero_tail(vm, start, flags);
    if start % b != 0 && !vm.contains_key(page) {
        Run::Stopped {
            error: LoadError::InvalidElf("BSS partial page not mapped"),
            memory: Virtual { vm, copied: Seq::empty() },
        }
    } else {
        Run::Done(
            Virtual {
                vm: rest.union_prefer_right(
                    paging::zero_cells(first_free, arith::ceil_to(end, b), flags),
                ),
                copied: Seq::empty(),
            },
        )
    }
}

/// Virtual memory once the bytes from `start` to the end of its page are zeroed and the page
/// has the given flags. A section that starts at a page boundary has no such page.
pub open spec fn zero_tail<S: PageSize>(
    vm: Map<int, Cell<S>>,
    start: int,
    flags: PageFlags,
) -> Map<int, Cell<S>> {
    let b = paging::base::<S>();
    let page = arith::floor_to(start, b);
    if start % b == 0 {
        vm
    } else {
        paging::vm_stored(
            paging::reflagged(vm, page, page + b, flags),
            start,
            paging::zeros((page + b - start) as nat),
        )
    }
}

/// The bytes of a page whose tail from `keep` on is zeroed.
pub open spec fn zeroed_tail_bytes(memory: Map<int, u8>, phys: int, keep: int, len: nat) -> Seq<
    u8,
> {
    Seq::new(
        len,
        |i: int|
            if i < keep {
                memory[phys + i]
            } else {
                0
            },
    )
}

/// The page in which a zeroed section starts moves to a frame of its own, in which its tail is
/// zeroed. A section that starts at a page boundary has no such page.
pub open spec fn zero_tail_step<S: PageSize>(
    memory: Physical<S>,
    start: int,
    flags: PageFlags,
) -> Run<Physical<S>> {
    let b = paging::base::<S>();
    let page = arith::floor_to(start, b);
    if start % b == 0 {
        Run::Done(memory)
    } else if !paging::mapped(memory.entries, page) {
        Run::Stopped { error: LoadError::InvalidElf("BSS partial page not mapped"), memory }
    } else {
        memory.with_moved_page(
            page as u64,
            flags,
            zeroed_tail_bytes(
                memory.memory,
                paging::phys_at(memory.entries, page),
                start - page,
                b as nat,
            ),
            "failed to unmap page during BSS handling",
        )
    }
}

/// Setting up the addresses from `start` to `end` as a zeroed section: the page in which it
/// starts, and then whole zeroed pages.
pub open spec fn bss_step<S: PageSize>(
    memory: Physical<S>,
    start: int,
    end: int,
    flags: PageFlags,
) -> Run<Physical<S>> {
    let b = paging::base::<S>();
    match zero_tail_step(memory, start, flags) {
        Run::Done(next) => next.with_zeroed_pages(
            arith::ceil_to(start, b),
            arith::ceil_to(end, b),
            flags,
        ),
        stop => stop,
    }
}

/// Replace the page in which the BSS starts by a private copy whose tail is zeroed.
///
/// If `zero_start` is not page-aligned, the last file page is copied and its remainder is
/// zeroed (to avoid aliasing the original ELF data).
fn zero_partial_page<
    S: PageSize,
    P: PageTable<S>,
    A: FrameAllocator<S>,
    M: PhysicalMemoryAccess,
>(
    zero_start: u64,
    flags: PageFlags,
    page_table: &mut P,
    allocator: &mut A,
    phys_mem: &mut M,
) -> (r: Result<(), LoadError>)
    requires
        state::snapshot(*old(page_table), *old(allocator), *old(phys_mem)).sound(Seq::empty()),
    ensures
        ({
            let before = state::snapshot(*old(page_table), *old(allocator), *old(phys_mem));
            let after = state::snapshot(*final(page_table), *final(allocator), *final(phys_mem));
            let page = arith::floor_to(zero_start as int, paging::base::<S>());
            &&& before.kept(Seq::empty(), after)
            &&& after.sound(Seq::empty())
            &&& match r {
                Ok(_) => {
                    &&& before.quiet(after)
                    &&& after.available.subset_of(before.available)
                    &&& zero_start as int % paging::base::<S>() != 0 ==> before.vm().contains_key(
                        page,
                    )
                    &&& after.vm() == zero_tail(before.vm(), zero_start as int, flags)
                },
                Err(e) => {
                    &&& zero_start as int % paging::base::<S>() != 0
                    &&& before.refused_by(after, e) || {
                        &&& !before.vm().contains_key(page)
                        &&& e == LoadError::InvalidElf("BSS partial page not mapped")
                        &&& after == before
                    }
                },
            }
            &&& physical::tracks(
                |memory: Physical<S>| zero_tail_step(memory, zero_start as int, flags),
                before,
                Seq::empty(),
                after,
                Seq::empty(),
                r,
            )
        }),
{
    let ghost before = state::snapshot(*page_table, *allocator, *phys_mem);
    let base_size: u64 = S::BASE.bytes();
    let ghost b = paging::base::<S>();
    let ghost none = Seq::<u64>::empty();
    let ghost run = |memory: Physical<S>| zero_tail_step(memory, zero_start as int, flags);
    proof {
        physical::lemma_idle(before, none);
    }
    let data_bytes_before_zero: u64 = zero_start % base_size;
    if data_bytes_before_zero == 0 {
        return Ok(());
    }
    let last_page_vaddr: u64 = arith::align_down(zero_start, base_size);
    // Translate the current mapping to find the physical frame.
    let old_phys: PhysAddr = match page_table.translate(VirtAddr::new(last_page_vaddr)) {
        Some((phys, _, _)) => phys,
        None => {
            return Err(LoadError::InvalidElf("BSS partial page not mapped"));
        },
    };
    let ghost k = choose|k: u64|
        {
            &&& #[trigger] paging::covers(before.entries, k, last_page_vaddr as int)
            &&& old_phys.0 == before.entries[k].phys + (last_page_vaddr - k)
        };
    proof {
        paging::lemma_page_at(before.entries, k, last_page_vaddr as int);
        paging::lemma_block_in_page(
            before.entries,
            k,
            last_page_vaddr as int,
            last_page_vaddr as int,
        );
        assert(paging::wf_entry(k, before.entries[k]));
    }
    // Allocate a new frame and copy the old contents.
    let new_phys: PhysAddr = match allocator.allocate_frame(S::BASE) {
        Some(frame) => frame,
        None => {
            proof {
                let after = state::snapshot(*page_table, *allocator, *phys_mem);
                let answer = physical::reply(before, after, None, None, None);
                let r = Err(LoadError::FrameAllocationFailed);
                physical::lemma_one_answer(run, before, none, answer, after, none, r);
            }
            return Err(LoadError::FrameAllocationFailed);
        },
    };
    proof {
        arith::lemma_aligned_block_fits(new_phys.0, base_size);
        if old_phys.0 + base_size > new_phys.0 && new_phys.0 + base_size > old_phys.0 {
            let a = if old_phys.0 >= new_phys.0 {
                old_phys.0 as int
            } else {
                new_phys.0 as int
            };
            let v = last_page_vaddr + (a - old_phys.0);
            assert(paging::covers(before.entries, k, v));
            paging::lemma_page_at(before.entries, k, v);
            assert(before.available.contains(a));
        }
    }
    phys_mem.copy_phys(old_phys, new_phys, base_size);
    let ghost copy = phys_mem.memory();
    // Zero the BSS portion of the new frame.
    let zero_len: u64 = base_size - data_bytes_before_zero;
    phys_mem.zero_phys(PhysAddr::new(new_phys.as_u64() + data_bytes_before_zero), zero_len);
    assert(phys_mem.memory() =~= paging::stored(
        before.memory,
        new_phys.0 as int,
        zeroed_tail_bytes(
            before.memory,
            old_phys.0 as int,
            data_bytes_before_zero as int,
            b as nat,
        ),
    ));
    // Remap to the new frame.
    match page_table.unmap(VirtAddr::new(last_page_vaddr)) {
        Ok(_) => {},
        Err(reason) => {
            proof {
                let after = state::snapshot(*page_table, *allocator, *phys_mem);
                let frame = Some(new_phys.0);
                let answer = physical::reply(before, after, frame, Some(reason), None);
                let r = Err(LoadError::InvalidElf("failed to unmap page during BSS handling"));
                physical::lemma_one_answer(run, before, none, answer, after, none, r);
            }
            return Err(LoadError::InvalidElf("failed to unmap page during BSS handling"));
        },
    }
    match page_table.map(VirtAddr::new(last_page_vaddr), new_phys, S::BASE, flags, allocator) {
        Ok(_) => {},
        Err(e) => {
            proof {
                paging::lemma_remove_page(before.entries, last_page_vaddr);
                let after = state::snapshot(*page_table, *allocator, *phys_mem);
                let refusal = MapRefusal {
                    at: last_page_vaddr,
                    reason: e,
                    refused: after.refused,
                };
                let frame = Some(new_phys.0);
                let answer = physical::reply(before, after, frame, None, Some(refusal));
                let r = Err(LoadError::MappingFailed(e));
                physical::lemma_one_answer(run, before, none, answer, after, none, r);
            }
            return Err(LoadError::MappingFailed(e));
        },
    }
    proof {
        let after = state::snapshot(*page_table, *allocator, *phys_mem);
        assert(paging::covers(before.entries, last_page_vaddr, last_page_vaddr as int));
        assert(k == last_page_vaddr);
        assert(after.entries =~= before.entries.insert(
            last_page_vaddr,
            PageEntry { phys: new_phys.0, flags, size: S::BASE },
        ));
        paging::lemma_copy_page(
            before.entries,
            before.memory,
            last_page_vaddr,
            new_phys.0,
            flags,
            before.available,
            after.available,
        );
        paging::lemma_write_page(
            after.entries,
            copy,
            last_page_vaddr,
            zero_start as int,
            paging::zeros(zero_len as nat),
        );
        let answer = physical::reply(before, after, Some(new_phys.0), None, None);
        physical::lemma_one_answer(run, before, none, answer, after, none, Ok(()));
    }
    Ok(())
}

/// Handle the BSS portion of a LOAD segment (memory beyond the file-backed region).
pub fn handle_bss_section<
    S: PageSize,
    P: PageTable<S>,
    A: FrameAllocator<S>,
    M: PhysicalMemoryAccess,
>(
    virt_start: VirtAddr,
    file_size: u64,
    mem_size: u64,
    flags: PageFlags,
    page_table: &mut P,
    allocator: &mut A,
    phys_mem: &mut M,
) -> (r: Result<(), LoadError>)
    requires
        state::snapshot(*old(page_table), *old(allocator), *old(phys_mem)).sound(Seq::empty()),
        file_size <= mem_size,
        virt_start.0 + mem_size <= u64::MAX,
        virt_start.0 + file_size + paging::base::<S>() - 1 <= u64::MAX,
    ensures
        ({
            let before = state::snapshot(*old(page_table), *old(allocator), *old(phys_mem));
            let after = state::snapshot(*final(page_table), *final(allocator), *final(phys_mem));
            let start = virt_start.0 + file_size;
            let end = virt_start.0 + mem_size;
            &&& relocation::follows(
                bss_run(before.vm(), start, end, flags),
                before,
                Seq::empty(),
                after,
                Seq::empty(),
                r,
            )
            &&& physical::tracks(
                |memory: Physical<S>| bss_step(memory, start, end, flags),
                before,
                Seq::empty(),
                after,
                Seq::empty(),
                r,
            )
        }),
{
    let ghost before = state::snapshot(*page_table, *allocator, *phys_mem);
    let base_size: u64 = S::BASE.bytes();
    let ghost b = paging::base::<S>();
    let zero_start: u64 = virt_start.as_u64() + file_size;
    let zero_end: u64 = virt_start.as_u64() + mem_size;
    let ghost start = virt_start.0 + file_size;
    let ghost end = virt_start.0 + mem_size;
    let ghost none = Seq::<u64>::empty();
    let ghost run = |memory: Physical<S>| bss_step(memory, start, end, flags);
    let ghost rest = zeroed::zeroed_run::<S>(
        arith::ceil_to(start, b),
        arith::ceil_to(end, b),
        flags,
    );
    // Handle partial page at the boundary between file data and BSS.
    let partial = zero_partial_page(zero_start, flags, page_table, allocator, phys_mem);
    let ghost mid = state::snapshot(*page_table, *allocator, *phys_mem);
    proof {
        physical::lemma_idle(before, none);
        physical::lemma_tracks_step(
            run,
            run,
            before,
            none,
            before,
            none,
            |memory: Physical<S>| zero_tail_step(memory, zero_start as int, flags),
            rest,
            mid,
            none,
            partial,
        );
    }
    match partial {
        Ok(_) => {},
        Err(e) => {
            return Err(e);
        },
    }
    // Map additional zeroed frames for the rest of the BSS.
    let alloc_start: u64 = arith::align_up(zero_start, base_size);
    proof {
        arith::lemma_ceil_facts(zero_start as int, b);
        arith::lemma_ceil_facts(zero_end as int, b);
        assert(mid.owned(Seq::empty()) =~= mid.available);
        assert(before.owned(Seq::empty()) =~= before.available);
    }
    if alloc_start < zero_end {
        let alloc_end_page: u64 = arith::align_down(zero_end - 1, base_size);
        proof {
            if alloc_end_page < alloc_start {
                arith::lemma_multiples_apart(alloc_end_page as int, alloc_start as int, b);
            }
            arith::lemma_multiples_add(alloc_end_page as int, alloc_start as int, b);
            vstd::arithmetic::div_mod::lemma_fundamental_div_mod(alloc_end_page - alloc_start, b);
            vstd::arithmetic::div_mod::lemma_mod_self_0(b);
            arith::lemma_multiples_add(alloc_end_page as int, b, b);
            if alloc_end_page + b != arith::ceil_to(zero_end as int, b) {
                arith::lemma_multiples_apart(
                    alloc_end_page + b,
                    arith::ceil_to(zero_end as int, b),
                    b,
                );
            }
        }
        let num_pages: u64 = (alloc_end_page - alloc_start) / base_size + 1;
        proof {
            let q = (alloc_end_page - alloc_start) / b;
            assert((num_pages - 1) * b == alloc_end_page - alloc_start && num_pages * b
                == alloc_end_page - alloc_start + b) by (nonlinear_arith)
                requires
                    num_pages == q + 1,
                    b * q == alloc_end_page - alloc_start,
            ;
        }
        let zeroed = map_zeroed_pages(
            VirtAddr::new(alloc_start),
            num_pages,
            flags,
            page_table,
            allocator,
            phys_mem,
        );
        proof {
            let after = state::snapshot(*page_table, *allocator, *phys_mem);
            assert(after.owned(Seq::empty()) =~= after.available);
            state::lemma_kept_chain(before, Seq::empty(), mid, Seq::empty(), after);
            physical::lemma_tracks_step(
                run,
                rest,
                before,
                none,
                mid,
                none,
                rest,
                |memory: Physical<S>| Run::Done(memory),
                after,
                none,
                zeroed,
            );
            if zeroed is Ok {
                physical::lemma_tracks_end(
                    run,
                    |memory: Physical<S>| Run::Done(memory),
                    before,
                    none,
                    after,
                    none,
                    after,
                    none,
                    Ok(()),
                );
            }
        }
        match zeroed {
            Ok(_) => {},
            Err(e) => {
                return Err(e);
            },
        }
    } else {
        proof {
            if arith::ceil_to(zero_end as int, b) > alloc_start {
                arith::lemma_multiples_apart(
                    arith::ceil_to(zero_end as int, b),
                    alloc_start as int,
                    b,
                );
            }
            assert(mid.vm() =~= mid.vm().union_prefer_right(
                paging::zero_cells::<S>(
                    alloc_start as int,
                    arith::ceil_to(zero_end as int, b),
                    flags,
                ),
            ));
            physical::lemma_tracks_end(run, rest, before, none, mid, none, mid, none, Ok(()));
        }
    }
    Ok(())
}

/// Map `num_base_pages` pages starting at `virt_start` to physical frames at `phys_start`.
///
/// If `use_huge_pages` is true, tries larger page sizes where alignment permits.
pub fn map_pages<S: PageSize, P: PageTable<S>, A: FrameAllocator<S>>(
    virt_start: VirtAddr,
    phys_start: PhysAddr,
    num_base_pages: u64,
    flags: PageFlags,
    use_huge_pages: bool,
    page_table: &mut P,
    allocator: &mut A,
) -> (r: Result<(), LoadError>)
    requires
        paging::wf_entries(old(page_table).entries()),
        num_base_pages * paging::base::<S>() <= u64::MAX,
        num_base_pages > 0 ==> virt_start.0 + (num_base_pages - 1) * paging::base::<S>()
            <= u64::MAX,
        num_base_pages > 0 ==> phys_start.0 + (num_base_pages - 1) * paging::base::<S>()
            <= u64::MAX,
    ensures
        match r {
            Ok(_) => {
                &&& final(page_table).entries() == old(page_table).entries().union_prefer_right(
                    mapping::page_plan(
                        virt_start.0 as int,
                        phys_start.0 as int,
                        num_base_pages * paging::base::<S>(),
                        flags,
                        use_huge_pages,
                    ),
                )
                &&& forall|v: int|
                    virt_start.0 <= v < virt_start.0 + num_base_pages * paging::base::<S>()
                        ==> !#[trigger] paging::mapped(old(page_table).entries(), v)
                &&& final(page_table).refusals() == old(page_table).refusals()
                &&& final(allocator).refused() == old(allocator).refused()
                &&& num_base_pages > 0 ==> virt_start.0 as int % paging::base::<S>() == 0
                &&& num_base_pages > 0 ==> phys_start.0 as int % paging::base::<S>() == 0
            },
            Err(e) => exists|at: u64| #[trigger]
                mapping::refused_at(
                    old(page_table).entries(),
                    old(page_table).refusals(),
                    mapping::page_plan(
                        virt_start.0 as int,
                        phys_start.0 as int,
                        num_base_pages * paging::base::<S>(),
                        flags,
                        use_huge_pages,
                    ),
                    at,
                    final(page_table).entries(),
                    final(page_table).refusals(),
                    e,
                ),
        },
        paging::wf_entries(final(page_table).entries()),
        final(page_table).unmap_refusals() == old(page_table).unmap_refusals(),
        final(page_table).tables() == old(page_table).tables() + traits::added(
            old(page_table).tables(),
            final(page_table).tables(),
        ),
        final(allocator).granted() == old(allocator).granted() + traits::added(
            old(page_table).tables(),
            final(page_table).tables(),
        ),
        final(allocator).available().subset_of(old(allocator).available()),
        mapping::valid_sizes::<S>(),
{
    let base_size: u64 = S::BASE.bytes();
    proof {
        let b = base_size as int;
        let n = num_base_pages as int;
        vstd::arithmetic::div_mod::lemma_mod_multiples_basic(n, b);
        arith::lemma_ceil_facts(n * b, b);
        if n > 0 {
            assert(n * b - b == (n - 1) * b && n * b > 0) by (nonlinear_arith)
                requires
                    n > 0,
                    b > 0,
            ;
            vstd::arithmetic::div_mod::lemma_mod_multiples_basic(n - 1, b);
            arith::lemma_floor_facts(n * b - 1, b);
            arith::lemma_multiples_apart(arith::floor_to(n * b - 1, b), (n - 1) * b, b);
        }
    }
    let total_size: u64 = num_base_pages * base_size;
    mapping::map_region(
        virt_start,
        phys_start,
        total_size,
        flags,
        use_huge_pages,
        page_table,
        allocator,
    )
}

/// Where a LOAD segment starts in virtual memory.
pub open spec fn segment_virt(phdr: ProgramHeader, load_base: i64) -> u64 {
    arith::rebased(phdr.p_vaddr, load_base)
}

/// The first byte of the pages that hold the file part of a segment.
pub open spec fn file_pages_start<S: PageSize>(phdr: ProgramHeader, load_base: i64) -> int {
    arith::floor_to(segment_virt(phdr, load_base) as int, paging::base::<S>())
}

/// The number of bytes in the pages that hold the file part of a segment.
pub open spec fn file_pages_len<S: PageSize>(phdr: ProgramHeader, load_base: i64) -> int {
    arith::floor_to(
        segment_virt(phdr, load_base) + phdr.p_filesz - 1,
        paging::base::<S>(),
    ) + paging::base::<S>() - file_pages_start::<S>(phdr, load_base)
}

/// The first physical byte of the frames that back the file part of a segment.
pub open spec fn file_frames_start<S: PageSize>(
    phdr: ProgramHeader,
    kernel_phys_base: PhysAddr,
) -> int {
    arith::floor_to(kernel_phys_base.0 + phdr.p_offset, paging::base::<S>())
}

/// The addresses that loading a LOAD segment computes are 64-bit numbers.
pub open spec fn load_in_range<S: PageSize>(
    phdr: ProgramHeader,
    kernel_phys_base: PhysAddr,
    load_base: i64,
) -> bool {
    let virt = segment_virt(phdr, load_base);
    &&& kernel_phys_base.0 + phdr.p_offset <= u64::MAX
    &&& phdr.p_filesz > 0 ==> {
        &&& virt + phdr.p_filesz <= u64::MAX
        &&& file_pages_len::<S>(phdr, load_base) <= u64::MAX
        &&& file_frames_start::<S>(phdr, kernel_phys_base) + file_pages_len::<S>(phdr, load_base)
            <= arith::address_space_size()
    }
    &&& phdr.p_memsz > phdr.p_filesz ==> {
        &&& virt + phdr.p_memsz <= u64::MAX
        &&& virt + phdr.p_filesz + paging::base::<S>() - 1 <= u64::MAX
    }
}

/// None of the frames that back the file part of a segment can still be handed out.
pub open spec fn load_reserved<S: PageSize>(
    phdr: ProgramHeader,
    kernel_phys_base: PhysAddr,
    load_base: i64,
    available: Set<int>,
) -> bool {
    let start = file_frames_start::<S>(phdr, kernel_phys_base);
    phdr.p_filesz > 0 ==> forall|a: int|
        start <= a < start + file_pages_len::<S>(phdr, load_base)
            ==> !#[trigger] available.contains(a)
}

/// The pages that map the file part of a segment.
pub open spec fn file_plan<S: PageSize>(
    phdr: ProgramHeader,
    kernel_phys_base: PhysAddr,
    load_base: i64,
    use_huge_pages: bool,
) -> Map<u64, PageEntry<S>> {
    mapping::page_plan(
        file_pages_start::<S>(phdr, load_base),
        file_frames_start::<S>(phdr, kernel_phys_base),
        file_pages_len::<S>(phdr, load_base),
        segment_flags(phdr.p_flags),
        use_huge_pages,
    )
}

/// Mapping the file part of a segment: its pages show the frames of the kernel file itself.
pub open spec fn file_step<S: PageSize>(
    phdr: ProgramHeader,
    kernel_phys_base: PhysAddr,
    load_base: i64,
    use_huge_pages: bool,
) -> spec_fn(Physical<S>) -> Run<Physical<S>> {
    |memory: Physical<S>|
        memory.with_pages(file_plan(phdr, kernel_phys_base, load_base, use_huge_pages))
}

/// Mapping a LOAD segment: its file part, if it has one, and then its zeroed part.
pub open spec fn segment_step<S: PageSize>(
    memory: Physical<S>,
    phdr: ProgramHeader,
    kernel_phys_base: PhysAddr,
    load_base: i64,
    use_huge_pages: bool,
) -> Run<Physical<S>> {
    let with_file = if phdr.p_filesz > 0 {
        file_step(phdr, kernel_phys_base, load_base, use_huge_pages)(memory)
    } else {
        Run::Done(memory)
    };
    match with_file {
        Run::Done(next) => zero_part_step(next, phdr, load_base),
        stop => stop,
    }
}

/// Setting up the zeroed part of a LOAD segment, if it has one.
pub open spec fn zero_part_step<S: PageSize>(
    memory: Physical<S>,
    phdr: ProgramHeader,
    load_base: i64,
) -> Run<Physical<S>> {
    let virt = segment_virt(phdr, load_base);
    if phdr.p_memsz > phdr.p_filesz {
        bss_step(
            memory,
            virt + phdr.p_filesz,
            virt + phdr.p_memsz,
            segment_flags(phdr.p_flags),
        )
    } else {
        Run::Done(memory)
    }
}

/// Virtual memory once a LOAD segment is mapped: its file part shows the bytes of the kernel
/// image, which lies in the physical memory `image`, and zeroed memory follows.
pub open spec fn load_segment_run<S: PageSize>(
    vm: Map<int, Cell<S>>,
    image: Map<int, u8>,
    phdr: ProgramHeader,
    kernel_phys_base: PhysAddr,
    load_base: i64,
    use_huge_pages: bool,
) -> Run<Virtual<S>> {
    let virt = segment_virt(phdr, load_base);
    let with_file = if phdr.p_filesz > 0 {
        vm.union_prefer_right(
            paging::virtual_memory(
                file_plan(phdr, kernel_phys_base, load_base, use_huge_pages),
                image,
            ),
        )
    } else {
        vm
    };
    if phdr.p_memsz > phdr.p_filesz {
        bss_run(
            with_file,
            virt + phdr.p_filesz,
            virt + phdr.p_memsz,
            segment_flags(phdr.p_flags),
        )
    } else {
        Run::Done(Virtual { vm: with_file, copied: Seq::empty() })
    }
}

/// Map the file-backed portion of a LOAD segment.
fn map_file_part<S: PageSize, P: PageTable<S>, A: FrameAllocator<S>, M: PhysicalMemoryAccess>(
    phdr: &ProgramHeader,
    kernel_phys_base: PhysAddr,
    load_base: i64,
    use_huge_pages: bool,
    page_table: &mut P,
    allocator: &mut A,
    phys_mem: &M,
) -> (r: Result<(), LoadError>)
    requires
        state::snapshot(*old(page_table), *old(allocator), *phys_mem).sound(Seq::empty()),
        phdr.p_filesz > 0,
        load_in_range::<S>(*phdr, kernel_phys_base, load_base),
        load_reserved::<S>(*phdr, kernel_phys_base, load_base, old(allocator).available()),
    ensures
        ({
            let before = state::snapshot(*old(page_table), *old(allocator), *phys_mem);
            let after = state::snapshot(*final(page_table), *final(allocator), *phys_mem);
            &&& after.sound(Seq::empty())
            &&& match r {
                Ok(_) => {
                    &&& before.quiet(after)
                    &&& after.available.subset_of(before.available)
                    &&& after.vm() == before.vm().union_prefer_right(
                        paging::virtual_memory(
                            file_plan(*phdr, kernel_phys_base, load_base, use_huge_pages),
                            before.memory,
                        ),
                    )
                },
                Err(e) => before.refused_by(after, e),
            }
            &&& physical::tracks(
                file_step(*phdr, kernel_phys_base, load_base, use_huge_pages),
                before,
                Seq::empty(),
                after,
                Seq::empty(),
                r,
            )
        }),
        mapping::valid_sizes::<S>(),
{
    let ghost before = state::snapshot(*page_table, *allocator, *phys_mem);
    let base_size: u64 = S::BASE.bytes();
    let ghost b = paging::base::<S>();
    let ghost len = file_pages_len::<S>(*phdr, load_base);
    let phys_start: u64 = kernel_phys_base.as_u64() + phdr.p_offset;
    let virt_start: u64 = arith::rebase(phdr.p_vaddr, load_base);
    let start_page: u64 = arith::align_down(virt_start, base_size);
    let end_addr: u64 = virt_start + phdr.p_filesz;
    let end_page_start: u64 = arith::align_down(end_addr - 1, base_size);
    let phys_page_start: u64 = arith::align_down(phys_start, base_size);
    proof {
        if end_page_start < start_page {
            arith::lemma_multiples_apart(end_page_start as int, start_page as int, b);
        }
        arith::lemma_multiples_add(end_page_start as int, start_page as int, b);
        vstd::arithmetic::div_mod::lemma_fundamental_div_mod(
            end_page_start - start_page,
            b,
        );
        assert(len == end_page_start - start_page + b);
    }
    let num_pages: u64 = (end_page_start - start_page) / base_size + 1;
    proof {
        let q = (end_page_start - start_page) / b;
        assert(num_pages * b == len && (num_pages - 1) * b == len - b) by (nonlinear_arith)
            requires
                num_pages == q + 1,
                b * q == len - b,
        ;
        arith::lemma_multiples_add(phys_page_start as int, len - b, b);
    }
    let flags = elf_flags_to_page_flags(phdr.p_flags);
    let mapped = map_pages(
        VirtAddr::new(start_page),
        PhysAddr::new(phys_page_start),
        num_pages,
        flags,
        use_huge_pages,
        page_table,
        allocator,
    );
    let ghost plan = file_plan::<S>(*phdr, kernel_phys_base, load_base, use_huge_pages);
    let ghost after = state::snapshot(*page_table, *allocator, *phys_mem);
    proof {
        vstd::arithmetic::div_mod::lemma_mod_self_0(b);
        arith::lemma_multiples_add(end_page_start - start_page, b, b);
        arith::lemma_ceil_facts(len, b);
        arith::lemma_aligned_block_fits(end_page_start, base_size);
        mapping::lemma_plan::<S>(
            start_page as int,
            phys_page_start as int,
            len,
            flags,
            use_huge_pages,
        );
        assert forall|v: int| #[trigger] paging::mapped(
            after.entries,
            v,
        ) implies !after.available.contains(paging::phys_at(after.entries, v)) by {
            let k = paging::page_at(after.entries, v);
            assert(paging::covers(after.entries, k, v));
            if before.entries.contains_key(k) && after.entries[k] == before.entries[k] {
                assert(paging::covers(before.entries, k, v));
                paging::lemma_page_at(before.entries, k, v);
            } else {
                assert(paging::covers(plan, k, v));
                paging::lemma_page_at(plan, k, v);
                assert(!before.available.contains(phys_page_start + (v - start_page)));
            }
        }
    }
    proof {
        let at = choose|at: u64| #[trigger]
            mapping::refused_at(
                before.entries,
                before.refusals,
                plan,
                at,
                after.entries,
                after.refusals,
                mapped->Err_0,
            );
        let refusal = if mapped is Ok {
            None
        } else {
            let reason = (mapped->Err_0)->MappingFailed_0;
            Some(MapRefusal { at, reason, refused: after.refused })
        };
        physical::lemma_one_answer(
            file_step(*phdr, kernel_phys_base, load_base, use_huge_pages),
            before,
            Seq::empty(),
            physical::reply(before, after, None, None, refusal),
            after,
            Seq::empty(),
            mapped,
        );
    }
    proof {
        if mapped is Ok {
            assert forall|v: int| #[trigger] paging::mapped(
                before.entries,
                v,
            ) implies !paging::mapped(plan, v) by {}
            paging::lemma_union(before.entries, plan, before.memory);
        }
    }
    mapped
}

/// Map a single LOAD segment into the page table.
pub fn map_load_segment<
    S: PageSize,
    P: PageTable<S>,
    A: FrameAllocator<S>,
    M: PhysicalMemoryAccess,
>(
    phdr: &ProgramHeader,
    kernel_phys_base: PhysAddr,
    load_base: i64,
    use_huge_pages: bool,
    page_table: &mut P,
    allocator: &mut A,
    phys_mem: &mut M,
) -> (r: Result<(), LoadError>)
    requires
        state::snapshot(*old(page_table), *old(allocator), *old(phys_mem)).sound(Seq::empty()),
        load_in_range::<S>(*phdr, kernel_phys_base, load_base),
        load_reserved::<S>(*phdr, kernel_phys_base, load_base, old(allocator).available()),
    ensures
        ({
            let before = state::snapshot(*old(page_table), *old(allocator), *old(phys_mem));
            let after = state::snapshot(*final(page_table), *final(allocator), *final(phys_mem));
            &&& relocation::follows(
                load_segment_run(
                    before.vm(),
                    before.memory,
                    *phdr,
                    kernel_phys_base,
                    load_base,
                    use_huge_pages,
                ),
                before,
                Seq::empty(),
                after,
                Seq::empty(),
                r,
            )
            &&& physical::tracks(
                |memory: Physical<S>|
                    segment_step(memory, *phdr, kernel_phys_base, load_base, use_huge_pages),
                before,
                Seq::empty(),
                after,
                Seq::empty(),
                r,
            )
        }),
        phdr.p_filesz > 0 ==> mapping::valid_sizes::<S>(),
{
    let ghost before = state::snapshot(*page_table, *allocator, *phys_mem);
    let virt_start = VirtAddr::new(arith::rebase(phdr.p_vaddr, load_base));
    let flags = elf_flags_to_page_flags(phdr.p_flags);
    let ghost none = Seq::<u64>::empty();
    let ghost run = |memory: Physical<S>|
        segment_step(memory, *phdr, kernel_phys_base, load_base, use_huge_pages);
    let ghost rest = |memory: Physical<S>| zero_part_step(memory, *phdr, load_base);
    proof {
        physical::lemma_idle(before, none);
    }
    // Map the file-backed portion of the segment.
    if phdr.p_filesz > 0 {
        let file = map_file_part(
            phdr,
            kernel_phys_base,
            load_base,
            use_huge_pages,
            page_table,
            allocator,
            phys_mem,
        );
        proof {
            let mid = state::snapshot(*page_table, *allocator, *phys_mem);
            physical::lemma_tracks_step(
                run,
                run,
                before,
                none,
                before,
                none,
                file_step(*phdr, kernel_phys_base, load_base, use_huge_pages),
                rest,
                mid,
                none,
                file,
            );
        }
        match file {
            Ok(_) => {},
            Err(e) => {
                return Err(e);
            },
        }
    } else {
        proof {
            physical::lemma_still_same(run, run, rest, before, none, before, none);
        }
    }
    let ghost mid = state::snapshot(*page_table, *allocator, *phys_mem);
    proof {
        assert(mid.owned(Seq::empty()) =~= mid.available);
        assert(before.owned(Seq::empty()) =~= before.available);
    }
    // Handle BSS (mem_size > file_size).
    if phdr.p_memsz > phdr.p_filesz {
        let zeroed = handle_bss_section(
            virt_start,
            phdr.p_filesz,
            phdr.p_memsz,
            flags,
            page_table,
            allocator,
            phys_mem,
        );
        proof {
            let after = state::snapshot(*page_table, *allocator, *phys_mem);
            state::lemma_kept_chain(before, Seq::empty(), mid, Seq::empty(), after);
            let start = virt_start.0 + phdr.p_filesz;
            let end = virt_start.0 + phdr.p_memsz;
            let done = |memory: Physical<S>| Run::<Physical<S>>::Done(memory);
            physical::lemma_tracks_step(
                run,
                rest,
                before,
                none,
                mid,
                none,
                |memory: Physical<S>| bss_step(memory, start, end, flags),
                done,
                after,
                none,
                zeroed,
            );
            if zeroed is Ok {
                physical::lemma_tracks_end(
                    run,
                    done,
                    before,
                    none,
                    after,
                    none,
                    after,
                    none,
                    Ok(()),
                );
            }
        }
        match zeroed {
            Ok(_) => {},
            Err(e) => {
                return Err(e);
            },
        }
    } else {
        proof {
            physical::lemma_tracks_end(run, rest, before, none, mid, none, mid, none, Ok(()));
        }
    }
    Ok(())
}

/// The last value that a dynamic table gives for a tag.
pub open spec fn last_value(entries: Seq<DynamicEntry>, tag: i64) -> Option<u64>
    decreases entries.len(),
{
    if entries.len() == 0 {
        None
    } else if entries.last().d_tag == tag {
        Some(entries.last().d_val)
    } else {
        last_value(entries.drop_last(), tag)
    }
}

/// Applying the RELA table that a dynamic table describes, if it describes one.
pub open spec fn dynamic_rela_run<W: Words>(
    memory: W,
    entries: Seq<DynamicEntry>,
    load_base: i64,
    e_machine: u16,
) -> Run<W> {
    let size = last_value(entries, DT_RELASZ);
    let ent = last_value(entries, DT_RELAENT);
    match last_value(entries, DT_RELA) {
        Some(offset) => if size is None {
            Run::Stopped {
                error: LoadError::InvalidElf("DT_RELA without DT_RELASZ"),
                memory,
            }
        } else if ent is None {
            Run::Stopped {
                error: LoadError::InvalidElf("DT_RELA without DT_RELAENT"),
                memory,
            }
        } else {
            relocation::rela_table_run(
                memory,
                offset,
                size.unwrap(),
                ent.unwrap(),
                load_base,
                e_machine,
            )
        },
        None => if size is Some || ent is Some {
            Run::Stopped {
                error: LoadError::InvalidElf("DT_RELASZ or DT_RELAENT without DT_RELA"),
                memory,
            }
        } else {
            Run::Done(memory)
        },
    }
}

/// Applying the RELR table that a dynamic table describes, if it describes one.
pub open spec fn dynamic_relr_run<W: Words>(
    memory: W,
    entries: Seq<DynamicEntry>,
    load_base: i64,
) -> Run<W> {
    let size = last_value(entries, DT_RELRSZ);
    let ent = last_value(entries, DT_RELRENT);
    match last_value(entries, DT_RELR) {
        Some(offset) => if size is None {
            Run::Stopped {
                error: LoadError::InvalidElf("DT_RELR without DT_RELRSZ"),
                memory,
            }
        } else if ent is None {
            Run::Stopped {
                error: LoadError::InvalidElf("DT_RELR without DT_RELRENT"),
                memory,
            }
        } else {
            relocation::relr_table_run(
                memory,
                offset,
                size.unwrap(),
                ent.unwrap(),
                load_base,
            )
        },
        None => Run::Done(memory),
    }
}

/// Applying the relocations that a dynamic table describes: RELA first, then RELR.
pub open spec fn dynamic_run<W: Words>(
    memory: W,
    dynamic: DynamicView,
    load_base: i64,
    e_machine: u16,
) -> Run<W> {
    match dynamic {
        DynamicView::Unreadable => Run::Stopped {
            error: LoadError::InvalidElf("failed to parse dynamic section"),
            memory,
        },
        DynamicView::Absent => Run::Done(memory),
        DynamicView::Entries(entries) => match dynamic_rela_run(
            memory,
            entries,
            load_base,
            e_machine,
        ) {
            Run::Done(next_memory) => dynamic_relr_run(
                next_memory,
                entries,
                load_base,
            ),
            stop => stop,
        },
    }
}

/// The values of a dynamic table that describe its relocations.
struct RelocationTables {
    rela_offset: Option<u64>,
    rela_size: Option<u64>,
    rela_ent: Option<u64>,
    relr_offset: Option<u64>,
    relr_size: Option<u64>,
    relr_ent: Option<u64>,
}

impl RelocationTables {
    /// These are the values that the entries give.
    spec fn found_in(self, entries: Seq<DynamicEntry>) -> bool {
        &&& self.rela_offset == last_value(entries, DT_RELA)
        &&& self.rela_size == last_value(entries, DT_RELASZ)
        &&& self.rela_ent == last_value(entries, DT_RELAENT)
        &&& self.relr_offset == last_value(entries, DT_RELR)
        &&& self.relr_size == last_value(entries, DT_RELRSZ)
        &&& self.relr_ent == last_value(entries, DT_RELRENT)
    }
}

/// Read the values that describe relocations. A later entry overrides an earlier one.
fn find_relocation_tables(entries: &Vec<DynamicEntry>) -> (r: RelocationTables)
    ensures
        r.found_in(entries@),
{
    let mut found = RelocationTables {
        rela_offset: None,
        rela_size: None,
        rela_ent: None,
        relr_offset: None,
        relr_size: None,
        relr_ent: None,
    };
    let mut i: usize = 0;
    while i < entries.len()
        invariant
            i <= entries.len(),
            found.found_in(entries@.take(i as int)),
        decreases entries.len() - i,
    {
        let entry = entries[i];
        match entry.d_tag {
            DT_RELA => {
                found.rela_offset = Some(entry.d_val);
            },
            DT_RELASZ => {
                found.rela_size = Some(entry.d_val);
            },
            DT_RELAENT => {
                found.rela_ent = Some(entry.d_val);
            },
            DT_RELR => {
                found.relr_offset = Some(entry.d_val);
            },
            DT_RELRSZ => {
                found.relr_size = Some(entry.d_val);
            },
            DT_RELRENT => {
                found.relr_ent = Some(entry.d_val);
            },
            _ => {},
        }
        proof {
            assert(entries@.take(i + 1).drop_last() =~= entries@.take(i as int));
            assert(entries@.take(i + 1).last() == entry);
        }
        i = i + 1;
    }
    assert(entries@.take(entries@.len() as int) =~= entries@);
    found
}

/// Apply the RELA table that a dynamic table describes, if it describes one.
fn apply_rela_table<
    S: PageSize,
    P: PageTable<S>,
    A: FrameAllocator<S>,
    M: PhysicalMemoryAccess,
>(
    found: &RelocationTables,
    Ghost(entries): Ghost<Seq<DynamicEntry>>,
    load_base: i64,
    e_machine: u16,
    page_table: &mut P,
    allocator: &mut A,
    phys_mem: &mut M,
    copied: &mut CopiedPages,
) -> (r: Result<(), LoadError>)
    requires
        found.found_in(entries),
        state::snapshot(*old(page_table), *old(allocator), *old(phys_mem)).sound(old(copied)@),
    ensures
        ({
            let before = state::snapshot(*old(page_table), *old(allocator), *old(phys_mem));
            let after = state::snapshot(*final(page_table), *final(allocator), *final(phys_mem));
            &&& relocation::follows(
                dynamic_rela_run(
                    relocation::seen(before, old(copied)@),
                    entries,
                    load_base,
                    e_machine,
                ),
                before,
                old(copied)@,
                after,
                final(copied)@,
                r,
            )
            &&& physical::tracks(
                |memory: Physical<S>| dynamic_rela_run(memory, entries, load_base, e_machine),
                before,
                old(copied)@,
                after,
                final(copied)@,
                r,
            )
        }),
{
    let ghost before = state::snapshot(*page_table, *allocator, *phys_mem);
    let ghost copied_before = copied@;
    let ghost run = |memory: Physical<S>| dynamic_rela_run(memory, entries, load_base, e_machine);
    proof {
        physical::lemma_idle(before, copied_before);
    }
    match found.rela_offset {
        Some(offset) => {
            let size: u64 = match found.rela_size {
                Some(size) => size,
                None => {
                    return Err(LoadError::InvalidElf("DT_RELA without DT_RELASZ"));
                },
            };
            let ent: u64 = match found.rela_ent {
                Some(ent) => ent,
                None => {
                    return Err(LoadError::InvalidElf("DT_RELA without DT_RELAENT"));
                },
            };
            let applied = relocation::process_rela(
                offset,
                size,
                ent,
                load_base,
                e_machine,
                page_table,
                allocator,
                phys_mem,
                copied,
            );
            proof {
                physical::lemma_tracks_same(
                    |memory: Physical<S>|
                        relocation::rela_table_run(memory, offset, size, ent, load_base, e_machine),
                    run,
                    before,
                    copied_before,
                    state::snapshot(*page_table, *allocator, *phys_mem),
                    copied@,
                    applied,
                );
            }
            applied
        },
        None => {
            if found.rela_size.is_some() || found.rela_ent.is_some() {
                return Err(LoadError::InvalidElf("DT_RELASZ or DT_RELAENT without DT_RELA"));
            }
            Ok(())
        },
    }
}

/// Apply the RELR table that a dynamic table describes, if it describes one.
fn apply_relr_table<
    S: PageSize,
    P: PageTable<S>,
    A: FrameAllocator<S>,
    M: PhysicalMemoryAccess,
>(
    found: &RelocationTables,
    Ghost(entries): Ghost<Seq<DynamicEntry>>,
    load_base: i64,
    page_table: &mut P,
    allocator: &mut A,
    phys_mem: &mut M,
    copied: &mut CopiedPages,
) -> (r: Result<(), LoadError>)
    requires
        found.found_in(entries),
        state::snapshot(*old(page_table), *old(allocator), *old(phys_mem)).sound(old(copied)@),
    ensures
        ({
            let before = state::snapshot(*old(page_table), *old(allocator), *old(phys_mem));
            let after = state::snapshot(*final(page_table), *final(allocator), *final(phys_mem));
            &&& relocation::follows(
                dynamic_relr_run(relocation::seen(before, old(copied)@), entries, load_base),
                before,
                old(copied)@,
                after,
                final(copied)@,
                r,
            )
            &&& physical::tracks(
                |memory: Physical<S>| dynamic_relr_run(memory, entries, load_base),
                before,
                old(copied)@,
                after,
                final(copied)@,
                r,
            )
        }),
{
    let ghost before = state::snapshot(*page_table, *allocator, *phys_mem);
    let ghost copied_before = copied@;
    let ghost run = |memory: Physical<S>| dynamic_relr_run(memory, entries, load_base);
    proof {
        physical::lemma_idle(before, copied_before);
    }
    match found.relr_offset {
        Some(offset) => {
            let size: u64 = match found.relr_size {
                Some(size) => size,
                None => {
                    return Err(LoadError::InvalidElf("DT_RELR without DT_RELRSZ"));
                },
            };
            let ent: u64 = match found.relr_ent {
                Some(ent) => ent,
                None => {
                    return Err(LoadError::InvalidElf("DT_RELR without DT_RELRENT"));
                },
            };
            let applied = relocation::process_relr(
                offset,
                size,
                ent,
                load_base,
                page_table,
                allocator,
                phys_mem,
                copied,
            );
            proof {
                physical::lemma_tracks_same(
                    |memory: Physical<S>|
                        relocation::relr_table_run(memory, offset, size, ent, load_base),
                    run,
                    before,
                    copied_before,
                    state::snapshot(*page_table, *allocator, *phys_mem),
                    copied@,
                    applied,
                );
            }
            applied
        },
        None => Ok(()),
    }
}

/// Process the PT_DYNAMIC segment to find and apply relocations.
pub fn process_dynamic_segment<
    S: PageSize,
    P: PageTable<S>,
    A: FrameAllocator<S>,
    M: PhysicalMemoryAccess,
>(
    elf: &ElfFile,
    load_base: i64,
    page_table: &mut P,
    allocator: &mut A,
    phys_mem: &mut M,
    copied: &mut CopiedPages,
) -> (r: Result<(), LoadError>)
    requires
        state::snapshot(*old(page_table), *old(allocator), *old(phys_mem)).sound(old(copied)@),
    ensures
        ({
            let before = state::snapshot(*old(page_table), *old(allocator), *old(phys_mem));
            let after = state::snapshot(*final(page_table), *final(allocator), *final(phys_mem));
            &&& relocation::follows(
                dynamic_run(
                    relocation::seen(before, old(copied)@),
                    elf@.dynamic,
                    load_base,
                    elf.header.e_machine,
                ),
                before,
                old(copied)@,
                after,
                final(copied)@,
                r,
            )
            &&& physical::tracks(
                |memory: Physical<S>|
                    dynamic_run(memory, elf@.dynamic, load_base, elf.header.e_machine),
                before,
                old(copied)@,
                after,
                final(copied)@,
                r,
            )
        }),
{
    let ghost before = state::snapshot(*page_table, *allocator, *phys_mem);
    let ghost copied_before = copied@;
    proof {
        physical::lemma_idle(before, copied_before);
    }
    let entries = match &elf.dynamic {
        DynamicTable::Unreadable => {
            return Err(LoadError::InvalidElf("failed to parse dynamic section"));
        },
        DynamicTable::Absent => {
            return Ok(());
        },
        DynamicTable::Entries(entries) => entries,
    };
    let found = find_relocation_tables(entries);
    let ghost e_machine = elf.header.e_machine;
    let ghost whole = dynamic_run(
        relocation::seen(before, copied_before),
        elf@.dynamic,
        load_base,
        e_machine,
    );
    let ghost whole_physical = |memory: Physical<S>|
        dynamic_run(memory, elf@.dynamic, load_base, e_machine);
    // Process RELA relocations if present.
    let applied = apply_rela_table(
        &found,
        Ghost(entries@),
        load_base,
        elf.header.e_machine,
        page_table,
        allocator,
        phys_mem,
        copied,
    );
    let ghost now = state::snapshot(*page_table, *allocator, *phys_mem);
    let ghost copied_now = copied@;
    let ghost rest = dynamic_relr_run(relocation::seen(now, copied_now), entries@, load_base);
    let ghost rest_physical = |memory: Physical<S>| dynamic_relr_run(memory, entries@, load_base);
    proof {
        relocation::lemma_step(
            whole,
            whole,
            before,
            copied_before,
            before,
            copied_before,
            dynamic_rela_run(
                relocation::seen(before, copied_before),
                entries@,
                load_base,
                e_machine,
            ),
            rest,
            now,
            copied_now,
            applied,
        );
        physical::lemma_tracks_step(
            whole_physical,
            whole_physical,
            before,
            copied_before,
            before,
            copied_before,
            |memory: Physical<S>| dynamic_rela_run(memory, entries@, load_base, e_machine),
            rest_physical,
            now,
            copied_now,
            applied,
        );
    }
    match applied {
        Ok(_) => {},
        Err(e) => {
            return Err(e);
        },
    }
    // Process RELR relocations if present.
    let applied = apply_relr_table(
        &found,
        Ghost(entries@),
        load_base,
        page_table,
        allocator,
        phys_mem,
        copied,
    );
    proof {
        let after = state::snapshot(*page_table, *allocator, *phys_mem);
        relocation::lemma_step(
            whole,
            rest,
            before,
            copied_before,
            now,
            copied_now,
            rest,
            rest,
            after,
            copied@,
            applied,
        );
        physical::lemma_tracks_step(
            whole_physical,
            rest_physical,
            before,
            copied_before,
            now,
            copied_now,
            rest_physical,
            |memory: Physical<S>| Run::Done(memory),
            after,
            copied@,
            applied,
        );
        if applied is Ok {
            physical::lemma_tracks_end(
                whole_physical,
                |memory: Physical<S>| Run::Done(memory),
                before,
                copied_before,
                after,
                copied@,
                after,
                copied@,
                applied,
            );
        }
    }
    applied
}

/// Virtual memory in which the addresses from `lo` to `hi` cannot be written.
pub open spec fn protected<S>(vm: Map<int, Cell<S>>, lo: int, hi: int) -> Map<int, Cell<S>> {
    Map::new(
        |v: int| vm.contains_key(v),
        |v: int|
            if lo <= v < hi {
                Cell {
                    flags: PageFlags { writable: false, executable: vm[v].flags.executable },
                    ..vm[v]
                }
            } else {
                vm[v]
            },
    )
}

/// The first byte of the pages of a RELRO segment.
pub open spec fn relro_start<S: PageSize>(phdr: ProgramHeader, load_base: i64) -> int {
    arith::floor_to(segment_virt(phdr, load_base) as int, paging::base::<S>())
}

/// The end of the pages of a RELRO segment. An empty segment that does not start at a page
/// boundary has one page, as has an empty segment at address zero.
pub open spec fn relro_end<S: PageSize>(phdr: ProgramHeader, load_base: i64) -> int {
    let end = segment_virt(phdr, load_base) + phdr.p_memsz;
    arith::floor_to(
        if end > 0 {
            end - 1
        } else {
            0
        },
        paging::base::<S>(),
    ) + paging::base::<S>()
}

/// The addresses that protecting a RELRO segment computes are 64-bit numbers.
pub open spec fn relro_in_range<S: PageSize>(phdr: ProgramHeader, load_base: i64) -> bool {
    &&& segment_virt(phdr, load_base) + phdr.p_memsz <= u64::MAX
    &&& relro_end::<S>(phdr, load_base) <= u64::MAX
}

/// Taking the write permission from one page changes nothing else.
proof fn lemma_protect_page<S: PageSize>(now: Snapshot<S>, copied: Seq<u64>, page: u64)
    requires
        now.sound(copied),
        now.entries.contains_key(page),
        now.entries[page].size == S::BASE,
    ensures
        ({
            let flags = PageFlags {
                writable: false,
                executable: now.entries[page].flags.executable,
            };
            let next = Snapshot {
                entries: now.entries.insert(page, PageEntry { flags, ..now.entries[page] }),
                ..now
            };
            &&& next.sound(copied)
            &&& next.owned(copied) == now.owned(copied)
            &&& next.vm() == protected(now.vm(), page as int, page + paging::base::<S>())
        }),
{
    let b = paging::base::<S>();
    let flags = PageFlags { writable: false, executable: now.entries[page].flags.executable };
    let entry = PageEntry { flags, ..now.entries[page] };
    let next = Snapshot { entries: now.entries.insert(page, entry), ..now };
    assert(paging::wf_entry(page, now.entries[page]));
    paging::lemma_replace_page(now.entries, page, entry);
    assert forall|v: int| paging::mapped(now.entries, v) implies #[trigger] paging::phys_at(
        next.entries,
        v,
    ) == paging::phys_at(now.entries, v) by {
        assert(paging::covers(now.entries, paging::page_at(now.entries, v), v));
        if paging::page_at(now.entries, v) == page {
            assert(page <= v < page + b);
        }
    }
    assert forall|v: int| #[trigger] paging::mapped(
        next.entries,
        v,
    ) implies !next.available.contains(paging::phys_at(next.entries, v)) by {
        assert(paging::mapped(now.entries, v));
    }
    assert forall|k: u64| #[trigger] copied.contains(k) implies next.entries.contains_key(k)
        && next.entries[k].size == S::BASE && paging::private(next.entries, k) by {
        assert(paging::private(now.entries, k));
        assert forall|v: int| #[trigger]
            paging::mapped(next.entries, v) && paging::page_at(next.entries, v) != k implies !(
        next.entries[k].phys <= paging::phys_at(next.entries, v) < next.entries[k].phys
            + next.entries[k].size.size()) by {
            assert(paging::mapped(now.entries, v));
            assert(paging::page_at(next.entries, v) == paging::page_at(now.entries, v));
        }
    }
    assert(next.owned(copied) =~= now.owned(copied));
    let goal = protected(now.vm(), page as int, page + b);
    assert forall|v: int| #[trigger] next.vm().contains_key(v) implies next.vm()[v] == goal[v] by {
        assert(paging::mapped(now.entries, v));
        assert(paging::covers(now.entries, paging::page_at(now.entries, v), v));
        assert(paging::page_at(next.entries, v) == paging::page_at(now.entries, v));
        if page <= v < page + b {
            assert(paging::page_at(now.entries, v) == page);
        }
    }
    assert forall|v: int| #[trigger] next.vm().contains_key(v) == goal.contains_key(v) by {
        assert(paging::mapped(next.entries, v) == paging::mapped(now.entries, v));
    }
    assert(next.vm() =~= goal);
}

/// Protecting two ranges in a row protects both together.
proof fn lemma_protect_more<S>(vm: Map<int, Cell<S>>, lo: int, mid: int, hi: int)
    requires
        lo <= mid <= hi,
    ensures
        protected(protected(vm, lo, mid), mid, hi) == protected(vm, lo, hi),
        protected(vm, lo, lo) == vm,
{
    assert(protected(protected(vm, lo, mid), mid, hi) =~= protected(vm, lo, hi));
    assert(protected(vm, lo, lo) =~= vm);
}

/// A range that nothing maps, or that cannot be written, is protected already.
proof fn lemma_protected_already<S>(vm: Map<int, Cell<S>>, lo: int, hi: int)
    requires
        forall|v: int|
            lo <= v < hi && #[trigger] vm.contains_key(v) ==> !vm[v].flags.writable,
    ensures
        protected(vm, lo, hi) == vm,
{
    assert(protected(vm, lo, hi) =~= vm);
}

/// Protecting the pages of a RELRO segment, one after the other.
pub open spec fn relro_step<S: PageSize>(phdr: ProgramHeader, load_base: i64) -> spec_fn(
    Physical<S>,
) -> Run<Physical<S>> {
    protect_step(relro_start::<S>(phdr, load_base), relro_end::<S>(phdr, load_base))
}

/// Protecting the pages from `page` up to `end`.
pub open spec fn protect_step<S: PageSize>(page: int, end: int) -> spec_fn(Physical<S>) -> Run<
    Physical<S>,
> {
    |memory: Physical<S>| memory.with_protected_pages(page, end)
}

/// Mark a RELRO segment as read-only after relocations have been applied.
pub fn handle_relro_segment<
    S: PageSize,
    P: PageTable<S>,
    A: FrameAllocator<S>,
    M: PhysicalMemoryAccess,
>(
    phdr: &ProgramHeader,
    load_base: i64,
    page_table: &mut P,
    allocator: &A,
    phys_mem: &M,
    copied: &CopiedPages,
) -> (r: Result<(), LoadError>)
    requires
        state::snapshot(*old(page_table), *allocator, *phys_mem).sound(copied@),
        relro_in_range::<S>(*phdr, load_base),
    ensures
        ({
            let before = state::snapshot(*old(page_table), *allocator, *phys_mem);
            let after = state::snapshot(*final(page_table), *allocator, *phys_mem);
            &&& after.sound(copied@)
            &&& match r {
                Ok(_) => {
                    &&& before.quiet(after)
                    &&& after.owned(copied@) == before.owned(copied@)
                    &&& after.vm() == protected(
                        before.vm(),
                        relro_start::<S>(*phdr, load_base),
                        relro_end::<S>(*phdr, load_base),
                    )
                },
                Err(e) => before.refused_by(after, e),
            }
            &&& physical::tracks(
                relro_step(*phdr, load_base),
                before,
                copied@,
                after,
                copied@,
                r,
            )
        }),
{
    let ghost before = state::snapshot(*page_table, *allocator, *phys_mem);
    let base_size: u64 = S::BASE.bytes();
    let ghost b = paging::base::<S>();
    let ghost run = relro_step::<S>(*phdr, load_base);
    let ghost stop = relro_end::<S>(*phdr, load_base);
    let start: u64 = arith::rebase(phdr.p_vaddr, load_base);
    let end: u64 = start + phdr.p_memsz;
    let start_page: u64 = arith::align_down(start, base_size);
    let end_page: u64 = arith::align_down(end.saturating_sub(1), base_size);
    let mut page: u64 = start_page;
    proof {
        lemma_protect_more(before.vm(), start_page as int, start_page as int, start_page as int);
        arith::lemma_floor_facts(start as int, b);
        physical::lemma_idle(before, copied@);
    }
    while page <= end_page
        invariant
            b == base_size,
            b == paging::base::<S>(),
            b > 0,
            run == relro_step::<S>(*phdr, load_base),
            run == protect_step::<S>(start_page as int, stop),
            stop == end_page + b,
            physical::still_tracks(
                run,
                protect_step::<S>(page as int, stop),
                before,
                copied@,
                state::snapshot(*page_table, *allocator, *phys_mem),
                copied@,
            ),
            start_page <= page,
            page as int % b == 0,
            end_page + b <= u64::MAX,
            end_page as int % b == 0,
            page > start_page ==> page <= end_page + b,
            before == state::snapshot(*old(page_table), *allocator, *phys_mem),
            before.quiet(state::snapshot(*page_table, *allocator, *phys_mem)),
            state::snapshot(*page_table, *allocator, *phys_mem).sound(copied@),
            state::snapshot(*page_table, *allocator, *phys_mem).owned(copied@) == before.owned(
                copied@,
            ),
            state::snapshot(*page_table, *allocator, *phys_mem).vm() == protected(
                before.vm(),
                start_page as int,
                page as int,
            ),
        decreases u64::MAX - page,
    {
        let ghost now = state::snapshot(*page_table, *allocator, *phys_mem);
        let ghost rest = protect_step::<S>(page as int, stop);
        let ghost then = protect_step::<S>(page + b, stop);
        let ghost step = |memory: Physical<S>| memory.with_protected_page(page);
        match page_table.translate(VirtAddr::new(page)) {
            Some((_, flags, _)) => {
                let ghost k = paging::page_at(now.entries, page as int);
                proof {
                    assert forall|v: int| page <= v < page + b implies paging::mapped(
                        now.entries,
                        v,
                    ) && #[trigger] paging::page_at(now.entries, v) == k by {
                        paging::lemma_block_in_page(now.entries, k, page as int, page as int);
                        assert(paging::covers(now.entries, k, v));
                        paging::lemma_page_at(now.entries, k, v);
                    }
                }
                if flags.writable {
                    let new_flags = PageFlags { writable: false, executable: flags.executable };
                    match page_table.update_flags(VirtAddr::new(page), new_flags) {
                        Ok(_) => {},
                        Err(e) => {
                            proof {
                                let after = state::snapshot(*page_table, *allocator, *phys_mem);
                                let refusal = MapRefusal {
                                    at: page,
                                    reason: e,
                                    refused: now.refused,
                                };
                                let answer = physical::reply(
                                    now,
                                    after,
                                    None,
                                    None,
                                    Some(refusal),
                                );
                                let r = Err(LoadError::MappingFailed(e));
                                physical::lemma_one_answer(
                                    step,
                                    now,
                                    copied@,
                                    answer,
                                    after,
                                    copied@,
                                    r,
                                );
                                physical::lemma_tracks_step(
                                    run,
                                    rest,
                                    before,
                                    copied@,
                                    now,
                                    copied@,
                                    step,
                                    then,
                                    after,
                                    copied@,
                                    r,
                                );
                            }
                            return Err(LoadError::MappingFailed(e));
                        },
                    }
                    proof {
                        let next = state::snapshot(*page_table, *allocator, *phys_mem);
                        physical::lemma_one_answer(
                            step,
                            now,
                            copied@,
                            physical::reply(now, next, None, None, None),
                            next,
                            copied@,
                            Ok(()),
                        );
                        physical::lemma_tracks_step(
                            run,
                            rest,
                            before,
                            copied@,
                            now,
                            copied@,
                            step,
                            then,
                            next,
                            copied@,
                            Ok(()),
                        );
                        assert(paging::wf_entry(page, now.entries[page]));
                        assert(paging::covers(now.entries, page, page as int));
                        lemma_protect_page(now, copied@, page);
                    }
                } else {
                    proof {
                        assert forall|v: int|
                            page <= v < page + b && #[trigger] now.vm().contains_key(
                                v,
                            ) implies !now.vm()[v].flags.writable by {
                            assert(paging::page_at(now.entries, v) == k);
                        }
                        lemma_protected_already(now.vm(), page as int, page + b);
                        physical::lemma_still_same(
                            run,
                            rest,
                            then,
                            before,
                            copied@,
                            now,
                            copied@,
                        );
                    }
                }
            },
            None => {
                proof {
                    assert forall|v: int| page <= v < page + b implies
                        !#[trigger] now.vm().contains_key(v) by {
                        if paging::mapped(now.entries, v) {
                            let j = paging::page_at(now.entries, v);
                            assert(paging::covers(now.entries, j, v));
                            paging::lemma_block_in_page(now.entries, j, page as int, v);
                            assert(paging::covers(now.entries, j, page as int));
                        }
                    }
                    lemma_protected_already(now.vm(), page as int, page + b);
                    physical::lemma_still_same(
                        run,
                        rest,
                        then,
                        before,
                        copied@,
                        now,
                        copied@,
                    );
                }
            },
        }
        proof {
            lemma_protect_more(before.vm(), start_page as int, page as int, page + b);
            vstd::arithmetic::div_mod::lemma_mod_self_0(b);
            arith::lemma_multiples_add(page as int, b, b);
        }
        page = page + base_size;
    }
    proof {
        if page > end_page + b {
            assert(page == start_page);
            arith::lemma_floor_facts(end.saturating_sub(1) as int, b);
            arith::lemma_multiples_apart(page as int, end_page as int, b);
        }
        if page < end_page + b {
            arith::lemma_multiples_apart(page as int, end_page as int, b);
        }
        let after = state::snapshot(*page_table, *allocator, *phys_mem);
        physical::lemma_tracks_end(
            run,
            protect_step::<S>(page as int, stop),
            before,
            copied@,
            after,
            copied@,
            after,
            copied@,
            Ok(()),
        );
    }
    Ok(())
}

/// The template that a TLS segment describes.
pub open spec fn tls_template(phdr: ProgramHeader, load_base: i64) -> TlsTemplate {
    TlsTemplate {
        start_addr: VirtAddr(segment_virt(phdr, load_base)),
        file_size: phdr.p_filesz,
        mem_size: phdr.p_memsz,
    }
}

/// The template of the first TLS segment among the first `count` segments.
pub open spec fn first_tls(
    segments: Seq<ProgramHeader>,
    count: int,
    load_base: i64,
) -> Option<TlsTemplate>
    decreases count,
{
    if count <= 0 {
        None
    } else {
        match first_tls(segments, count - 1, load_base) {
            Some(template) => Some(template),
            None => if segments[count - 1].p_type == PT_TLS {
                Some(tls_template(segments[count - 1], load_base))
            } else {
                None
            },
        }
    }
}

/// Mapping the LOAD segments from number `next` on. A second TLS segment is an error.
pub open spec fn load_run<S: PageSize>(
    vm: Map<int, Cell<S>>,
    image: Map<int, u8>,
    segments: Seq<ProgramHeader>,
    next: int,
    kernel_phys_base: PhysAddr,
    load_base: i64,
    use_huge_pages: bool,
) -> Run<Virtual<S>>
    decreases segments.len() - next,
{
    if next < 0 || segments.len() <= next {
        Run::Done(Virtual { vm, copied: Seq::empty() })
    } else if segments[next].p_type == PT_LOAD {
        match load_segment_run(
            vm,
            image,
            segments[next],
            kernel_phys_base,
            load_base,
            use_huge_pages,
        ) {
            Run::Done(Virtual { vm: next_vm, .. }) => load_run(
                next_vm,
                image,
                segments,
                next + 1,
                kernel_phys_base,
                load_base,
                use_huge_pages,
            ),
            stop => stop,
        }
    } else if segments[next].p_type == PT_TLS && first_tls(segments, next, load_base) is Some {
        Run::Stopped {
            error: LoadError::InvalidElf("multiple TLS segments"),
            memory: Virtual { vm, copied: Seq::empty() },
        }
    } else {
        load_run(
            vm,
            image,
            segments,
            next + 1,
            kernel_phys_base,
            load_base,
            use_huge_pages,
        )
    }
}

/// Applying the relocations once for each dynamic segment from number `next` on.
pub open spec fn relocate_run<W: Words>(
    memory: W,
    segments: Seq<ProgramHeader>,
    next: int,
    dynamic: DynamicView,
    load_base: i64,
    e_machine: u16,
) -> Run<W>
    decreases segments.len() - next,
{
    if next < 0 || segments.len() <= next {
        Run::Done(memory)
    } else if segments[next].p_type == PT_DYNAMIC {
        match dynamic_run(memory, dynamic, load_base, e_machine) {
            Run::Done(next_memory) => relocate_run(
                next_memory,
                segments,
                next + 1,
                dynamic,
                load_base,
                e_machine,
            ),
            stop => stop,
        }
    } else {
        relocate_run(memory, segments, next + 1, dynamic, load_base, e_machine)
    }
}

/// Applying the relocations from number `next` on to physical memory.
pub open spec fn relocate_physical<S: PageSize>(
    segments: Seq<ProgramHeader>,
    next: int,
    elf: ElfView,
    load_base: i64,
) -> spec_fn(Physical<S>) -> Run<Physical<S>> {
    |memory: Physical<S>|
        relocate_run(memory, segments, next, elf.dynamic, load_base, elf.header.e_machine)
}

/// Virtual memory once the RELRO segments from number `next` on are protected.
pub open spec fn relro_vm<S: PageSize>(
    vm: Map<int, Cell<S>>,
    segments: Seq<ProgramHeader>,
    next: int,
    load_base: i64,
) -> Map<int, Cell<S>>
    decreases segments.len() - next,
{
    if next < 0 || segments.len() <= next {
        vm
    } else if segments[next].p_type == PT_GNU_RELRO {
        relro_vm(
            protected(
                vm,
                relro_start::<S>(segments[next], load_base),
                relro_end::<S>(segments[next], load_base),
            ),
            segments,
            next + 1,
            load_base,
        )
    } else {
        relro_vm(vm, segments, next + 1, load_base)
    }
}

/// Relocating and protecting the segments of a file that are mapped already.
pub open spec fn finish_run<S: PageSize>(
    vm: Map<int, Cell<S>>,
    segments: Seq<ProgramHeader>,
    elf: ElfView,
    load_base: i64,
) -> Run<Virtual<S>> {
    match relocate_run(
        Virtual { vm, copied: Seq::empty() },
        segments,
        0,
        elf.dynamic,
        load_base,
        elf.header.e_machine,
    ) {
        Run::Done(Virtual { vm: relocated, copied }) => Run::Done(
            Virtual { vm: relro_vm(relocated, segments, 0, load_base), copied },
        ),
        stop => stop,
    }
}

/// Mapping the LOAD segments from number `next` on. A second TLS segment is an error.
pub open spec fn load_steps<S: PageSize>(
    memory: Physical<S>,
    segments: Seq<ProgramHeader>,
    next: int,
    kernel_phys_base: PhysAddr,
    load_base: i64,
    use_huge_pages: bool,
) -> Run<Physical<S>>
    decreases segments.len() - next,
{
    if next < 0 || segments.len() <= next {
        Run::Done(memory)
    } else if segments[next].p_type == PT_LOAD {
        match segment_step(memory, segments[next], kernel_phys_base, load_base, use_huge_pages) {
            Run::Done(loaded) => load_steps(
                loaded,
                segments,
                next + 1,
                kernel_phys_base,
                load_base,
                use_huge_pages,
            ),
            stop => stop,
        }
    } else if segments[next].p_type == PT_TLS && first_tls(segments, next, load_base) is Some {
        Run::Stopped { error: LoadError::InvalidElf("multiple TLS segments"), memory }
    } else {
        load_steps(memory, segments, next + 1, kernel_phys_base, load_base, use_huge_pages)
    }
}

/// [`load_steps`] as a run.
pub open spec fn load_physical<S: PageSize>(
    segments: Seq<ProgramHeader>,
    next: int,
    kernel_phys_base: PhysAddr,
    load_base: i64,
    use_huge_pages: bool,
) -> spec_fn(Physical<S>) -> Run<Physical<S>> {
    |memory: Physical<S>|
        load_steps(memory, segments, next, kernel_phys_base, load_base, use_huge_pages)
}

/// Protecting the RELRO segments from number `next` on.
pub open spec fn relro_steps<S: PageSize>(
    memory: Physical<S>,
    segments: Seq<ProgramHeader>,
    next: int,
    load_base: i64,
) -> Run<Physical<S>>
    decreases segments.len() - next,
{
    if next < 0 || segments.len() <= next {
        Run::Done(memory)
    } else if segments[next].p_type == PT_GNU_RELRO {
        match relro_step(segments[next], load_base)(memory) {
            Run::Done(protected) => relro_steps(protected, segments, next + 1, load_base),
            stop => stop,
        }
    } else {
        relro_steps(memory, segments, next + 1, load_base)
    }
}

/// [`relro_steps`] as a run.
pub open spec fn relro_physical<S: PageSize>(
    segments: Seq<ProgramHeader>,
    next: int,
    load_base: i64,
) -> spec_fn(Physical<S>) -> Run<Physical<S>> {
    |memory: Physical<S>| relro_steps(memory, segments, next, load_base)
}

/// Relocating and then protecting the segments of a file that are mapped already.
pub open spec fn finish_physical<S: PageSize>(
    segments: Seq<ProgramHeader>,
    elf: ElfView,
    load_base: i64,
) -> spec_fn(Physical<S>) -> Run<Physical<S>> {
    |memory: Physical<S>|
        match relocate_physical(segments, 0, elf, load_base)(memory) {
            Run::Done(relocated) => relro_steps(relocated, segments, 0, load_base),
            stop => stop,
        }
}

/// Loading a file: mapping its LOAD segments, relocating them, and protecting the RELRO
/// segments.
pub open spec fn elf_physical<S: PageSize>(
    elf: ElfView,
    kernel_phys_base: PhysAddr,
    load_base: i64,
    use_huge_pages: bool,
) -> spec_fn(Physical<S>) -> Run<Physical<S>> {
    |memory: Physical<S>|
        match elf.segments {
            None => Run::Stopped { error: LoadError::InvalidElf("no program headers"), memory },
            Some(segments) => match load_steps(
                memory,
                segments,
                0,
                kernel_phys_base,
                load_base,
                use_huge_pages,
            ) {
                Run::Done(loaded) => finish_physical(segments, elf, load_base)(loaded),
                stop => stop,
            },
        }
}

/// Mapping, relocating and protecting the segments of a file whose bytes lie in the physical
/// memory `image`.
pub open spec fn elf_run<S: PageSize>(
    vm: Map<int, Cell<S>>,
    image: Map<int, u8>,
    elf: ElfView,
    kernel_phys_base: PhysAddr,
    load_base: i64,
    use_huge_pages: bool,
) -> Run<Virtual<S>> {
    match elf.segments {
        None => Run::Stopped {
            error: LoadError::InvalidElf("no program headers"),
            memory: Virtual { vm, copied: Seq::empty() },
        },
        Some(segments) => match load_run(
            vm,
            image,
            segments,
            0,
            kernel_phys_base,
            load_base,
            use_huge_pages,
        ) {
            Run::Done(Virtual { vm: loaded, .. }) => finish_run(loaded, segments, elf, load_base),
            stop => stop,
        },
    }
}

/// The result of loading a file, and the states before and after, in terms of the page table and
/// physical memory. The list of copied pages is the loader's own.
pub open spec fn loaded<S: PageSize>(
    before: Snapshot<S>,
    elf: ElfView,
    kernel_phys_base: PhysAddr,
    load_base: i64,
    use_huge_pages: bool,
    after: Snapshot<S>,
    r: Result<(), LoadError>,
) -> bool {
    exists|copied: Seq<u64>| #[trigger]
        physical::tracks(
            elf_physical(elf, kernel_phys_base, load_base, use_huge_pages),
            before,
            Seq::empty(),
            after,
            copied,
            r,
        )
}

/// The addresses that loading a file computes are 64-bit numbers.
pub open spec fn elf_in_range<S: PageSize>(
    elf: ElfView,
    kernel_phys_base: PhysAddr,
    load_base: i64,
) -> bool {
    elf.segments matches Some(segments) ==> forall|i: int|
        0 <= i < segments.len() ==> segment_in_range::<S>(
            #[trigger] segments[i],
            kernel_phys_base,
            load_base,
        )
}

/// The addresses that loading a segment computes are 64-bit numbers.
pub open spec fn segment_in_range<S: PageSize>(
    phdr: ProgramHeader,
    kernel_phys_base: PhysAddr,
    load_base: i64,
) -> bool {
    &&& phdr.p_type == PT_LOAD ==> load_in_range::<S>(phdr, kernel_phys_base, load_base)
    &&& phdr.p_type == PT_GNU_RELRO ==> relro_in_range::<S>(phdr, load_base)
}

/// None of the frames that back the file parts of the segments can still be handed out.
pub open spec fn elf_reserved<S: PageSize>(
    elf: ElfView,
    kernel_phys_base: PhysAddr,
    load_base: i64,
    available: Set<int>,
) -> bool {
    elf.segments matches Some(segments) ==> forall|i: int|
        0 <= i < segments.len() && (#[trigger] segments[i]).p_type == PT_LOAD ==> load_reserved::<
            S,
        >(segments[i], kernel_phys_base, load_base, available)
}

/// The bytes of a LOAD segment do not change while other segments are loaded.
proof fn lemma_image_kept<S: PageSize>(
    vm: Map<int, Cell<S>>,
    before: Snapshot<S>,
    now: Snapshot<S>,
    phdr: ProgramHeader,
    kernel_phys_base: PhysAddr,
    load_base: i64,
    use_huge_pages: bool,
)
    requires
        phdr.p_filesz > 0 ==> mapping::valid_sizes::<S>(),
        vstd::arithmetic::power2::is_pow2(paging::base::<S>()),
        before.kept(Seq::empty(), now),
        load_in_range::<S>(phdr, kernel_phys_base, load_base),
        load_reserved::<S>(phdr, kernel_phys_base, load_base, before.available),
    ensures
        load_segment_run(
            vm,
            now.memory,
            phdr,
            kernel_phys_base,
            load_base,
            use_huge_pages,
        ) == load_segment_run(
            vm,
            before.memory,
            phdr,
            kernel_phys_base,
            load_base,
            use_huge_pages,
        ),
{
    if phdr.p_filesz > 0 {
        let b = paging::base::<S>();
        let virt = segment_virt(phdr, load_base);
        let lo = file_pages_start::<S>(phdr, load_base);
        let last = arith::floor_to(virt + phdr.p_filesz - 1, b);
        let len = file_pages_len::<S>(phdr, load_base);
        let phys = file_frames_start::<S>(phdr, kernel_phys_base);
        let plan = file_plan::<S>(phdr, kernel_phys_base, load_base, use_huge_pages);
        arith::lemma_floor_facts(virt as int, b);
        arith::lemma_floor_facts(virt + phdr.p_filesz - 1, b);
        arith::lemma_floor_facts(kernel_phys_base.0 + phdr.p_offset, b);
        if last < lo {
            arith::lemma_multiples_apart(last, lo, b);
        }
        vstd::arithmetic::div_mod::lemma_mod_self_0(b);
        arith::lemma_multiples_add(last, lo, b);
        arith::lemma_multiples_add(last - lo, b, b);
        arith::lemma_ceil_facts(len, b);
        arith::lemma_aligned_block_fits(last as u64, b as u64);
        mapping::lemma_plan::<S>(lo, phys, len, segment_flags(phdr.p_flags), use_huge_pages);
        assert(before.owned(Seq::empty()) =~= before.available);
        assert forall|v: int| #[trigger] paging::mapped(
            plan,
            v,
        ) implies now.memory[paging::phys_at(plan, v)] == before.memory[paging::phys_at(
            plan,
            v,
        )] by {
            assert(!before.available.contains(phys + (v - lo)));
        }
        paging::lemma_same_bytes(plan, now.memory, before.memory);
    }
}

/// Loading segments moves whole pages only.
proof fn lemma_load_run_whole<S: PageSize>(
    vm: Map<int, Cell<S>>,
    image: Map<int, u8>,
    segments: Seq<ProgramHeader>,
    next: int,
    kernel_phys_base: PhysAddr,
    load_base: i64,
    use_huge_pages: bool,
)
    ensures
        !(load_run(
            vm,
            image,
            segments,
            next,
            kernel_phys_base,
            load_base,
            use_huge_pages,
        ) is Crossing),
    decreases segments.len() - next,
{
    if 0 <= next < segments.len() {
        let run = load_segment_run(
            vm,
            image,
            segments[next],
            kernel_phys_base,
            load_base,
            use_huge_pages,
        );
        let next_vm = if segments[next].p_type == PT_LOAD {
            match run {
                Run::Done(Virtual { vm: next_vm, .. }) => next_vm,
                _ => vm,
            }
        } else {
            vm
        };
        lemma_load_run_whole(
            next_vm,
            image,
            segments,
            next + 1,
            kernel_phys_base,
            load_base,
            use_huge_pages,
        );
    }
}

/// Map the LOAD segments and find the TLS template.
fn load_segments<S: PageSize, P: PageTable<S>, A: FrameAllocator<S>, M: PhysicalMemoryAccess>(
    segments: &Vec<ProgramHeader>,
    kernel_phys_base: PhysAddr,
    load_base: i64,
    use_huge_pages: bool,
    page_table: &mut P,
    allocator: &mut A,
    phys_mem: &mut M,
) -> (r: Result<Option<TlsTemplate>, LoadError>)
    requires
        state::snapshot(*old(page_table), *old(allocator), *old(phys_mem)).sound(Seq::empty()),
        forall|i: int|
            0 <= i < segments@.len() ==> segment_in_range::<S>(
                #[trigger] segments@[i],
                kernel_phys_base,
                load_base,
            ),
        forall|i: int|
            0 <= i < segments@.len() && (#[trigger] segments@[i]).p_type == PT_LOAD
                ==> load_reserved::<S>(
                segments@[i],
                kernel_phys_base,
                load_base,
                old(allocator).available(),
            ),
    ensures
        ({
            let before = state::snapshot(*old(page_table), *old(allocator), *old(phys_mem));
            let after = state::snapshot(*final(page_table), *final(allocator), *final(phys_mem));
            &&& relocation::follows(
                load_run(
                    before.vm(),
                    before.memory,
                    segments@,
                    0,
                    kernel_phys_base,
                    load_base,
                    use_huge_pages,
                ),
                before,
                Seq::empty(),
                after,
                Seq::empty(),
                physical::outcome(r),
            )
            &&& physical::tracks(
                load_physical(segments@, 0, kernel_phys_base, load_base, use_huge_pages),
                before,
                Seq::empty(),
                after,
                Seq::empty(),
                physical::outcome(r),
            )
        }),
        r is Ok ==> r.unwrap() == first_tls(segments@, segments@.len() as int, load_base),
{
    let ghost before = state::snapshot(*page_table, *allocator, *phys_mem);
    let ghost none = Seq::<u64>::empty();
    let ghost whole = load_run(
        before.vm(),
        before.memory,
        segments@,
        0,
        kernel_phys_base,
        load_base,
        use_huge_pages,
    );
    let base_size: u64 = S::BASE.bytes();
    proof {
        lemma_load_run_whole(
            before.vm(),
            before.memory,
            segments@,
            0,
            kernel_phys_base,
            load_base,
            use_huge_pages,
        );
    }
    let ghost run = load_physical::<S>(
        segments@,
        0,
        kernel_phys_base,
        load_base,
        use_huge_pages,
    );
    proof {
        physical::lemma_idle(before, none);
    }
    let mut template: Option<TlsTemplate> = None;
    let mut i: usize = 0;
    while i < segments.len()
        invariant
            i <= segments.len(),
            base_size == paging::base::<S>(),
            vstd::arithmetic::power2::is_pow2(base_size as int),
            before == state::snapshot(*old(page_table), *old(allocator), *old(phys_mem)),
            none == Seq::<u64>::empty(),
            template == first_tls(segments@, i as int, load_base),
            run == load_physical::<S>(
                segments@,
                0,
                kernel_phys_base,
                load_base,
                use_huge_pages,
            ),
            physical::still_tracks(
                run,
                load_physical(
                    segments@,
                    i as int,
                    kernel_phys_base,
                    load_base,
                    use_huge_pages,
                ),
                before,
                none,
                state::snapshot(*page_table, *allocator, *phys_mem),
                none,
            ),
            relocation::on_track(
                whole,
                load_run(
                    state::snapshot(*page_table, *allocator, *phys_mem).vm(),
                    before.memory,
                    segments@,
                    i as int,
                    kernel_phys_base,
                    load_base,
                    use_huge_pages,
                ),
                before,
                none,
                state::snapshot(*page_table, *allocator, *phys_mem),
                none,
            ),
            whole == load_run(
                before.vm(),
                before.memory,
                segments@,
                0,
                kernel_phys_base,
                load_base,
                use_huge_pages,
            ),
            !(whole is Crossing),
            forall|i: int|
                0 <= i < segments@.len() ==> segment_in_range::<S>(
                    #[trigger] segments@[i],
                    kernel_phys_base,
                    load_base,
                ),
            forall|i: int|
                0 <= i < segments@.len() && (#[trigger] segments@[i]).p_type == PT_LOAD
                    ==> load_reserved::<S>(
                    segments@[i],
                    kernel_phys_base,
                    load_base,
                    before.available,
                ),
        decreases segments.len() - i,
    {
        let phdr = segments[i];
        let ghost now = state::snapshot(*page_table, *allocator, *phys_mem);
        let ghost rest_physical = load_physical::<S>(
            segments@,
            i as int,
            kernel_phys_base,
            load_base,
            use_huge_pages,
        );
        let ghost then_physical = load_physical::<S>(
            segments@,
            i + 1,
            kernel_phys_base,
            load_base,
            use_huge_pages,
        );
        if phdr.p_type == PT_LOAD {
            proof {
                assert(now.owned(none) =~= now.available);
                assert(before.owned(none) =~= before.available);
            }
            let loaded = map_load_segment(
                &phdr,
                kernel_phys_base,
                load_base,
                use_huge_pages,
                page_table,
                allocator,
                phys_mem,
            );
            proof {
                let next = state::snapshot(*page_table, *allocator, *phys_mem);
                lemma_image_kept(
                    now.vm(),
                    before,
                    now,
                    phdr,
                    kernel_phys_base,
                    load_base,
                    use_huge_pages,
                );
                let step = load_segment_run(
                    now.vm(),
                    before.memory,
                    phdr,
                    kernel_phys_base,
                    load_base,
                    use_huge_pages,
                );
                let rest = load_run(
                    now.vm(),
                    before.memory,
                    segments@,
                    i as int,
                    kernel_phys_base,
                    load_base,
                    use_huge_pages,
                );
                let then = load_run(
                    next.vm(),
                    before.memory,
                    segments@,
                    i + 1,
                    kernel_phys_base,
                    load_base,
                    use_huge_pages,
                );
                relocation::lemma_step(
                    whole,
                    rest,
                    before,
                    none,
                    now,
                    none,
                    step,
                    then,
                    next,
                    none,
                    loaded,
                );
                physical::lemma_tracks_step(
                    run,
                    rest_physical,
                    before,
                    none,
                    now,
                    none,
                    |memory: Physical<S>|
                        segment_step(memory, phdr, kernel_phys_base, load_base, use_huge_pages),
                    then_physical,
                    next,
                    none,
                    loaded,
                );
            }
            match loaded {
                Ok(_) => {},
                Err(e) => {
                    return Err(e);
                },
            }
        } else if phdr.p_type == PT_TLS {
            if template.is_some() {
                proof {
                    physical::lemma_tracks_end(
                        run,
                        rest_physical,
                        before,
                        none,
                        now,
                        none,
                        now,
                        none,
                        Err(LoadError::InvalidElf("multiple TLS segments")),
                    );
                }
                return Err(LoadError::InvalidElf("multiple TLS segments"));
            }
            template = Some(
                TlsTemplate {
                    start_addr: VirtAddr::new(arith::rebase(phdr.p_vaddr, load_base)),
                    file_size: phdr.p_filesz,
                    mem_size: phdr.p_memsz,
                },
            );
        }
        proof {
            if phdr.p_type != PT_LOAD {
                physical::lemma_still_same(
                    run,
                    rest_physical,
                    then_physical,
                    before,
                    none,
                    now,
                    none,
                );
            }
        }
        i = i + 1;
    }
    proof {
        let now = state::snapshot(*page_table, *allocator, *phys_mem);
        physical::lemma_tracks_end(
            run,
            load_physical(segments@, i as int, kernel_phys_base, load_base, use_huge_pages),
            before,
            none,
            now,
            none,
            now,
            none,
            Ok(()),
        );
    }
    Ok(template)
}

/// Apply the relocations, once for each dynamic segment.
fn relocate_segments<
    S: PageSize,
    P: PageTable<S>,
    A: FrameAllocator<S>,
    M: PhysicalMemoryAccess,
>(
    elf: &ElfFile,
    segments: &Vec<ProgramHeader>,
    load_base: i64,
    page_table: &mut P,
    allocator: &mut A,
    phys_mem: &mut M,
    copied: &mut CopiedPages,
) -> (r: Result<(), LoadError>)
    requires
        state::snapshot(*old(page_table), *old(allocator), *old(phys_mem)).sound(old(copied)@),
    ensures
        ({
            let before = state::snapshot(*old(page_table), *old(allocator), *old(phys_mem));
            let after = state::snapshot(*final(page_table), *final(allocator), *final(phys_mem));
            &&& relocation::follows(
                relocate_run(
                    relocation::seen(before, old(copied)@),
                    segments@,
                    0,
                    elf@.dynamic,
                    load_base,
                    elf.header.e_machine,
                ),
                before,
                old(copied)@,
                after,
                final(copied)@,
                r,
            )
            &&& physical::tracks(
                relocate_physical(segments@, 0, elf@, load_base),
                before,
                old(copied)@,
                after,
                final(copied)@,
                r,
            )
        }),
{
    let ghost before = state::snapshot(*page_table, *allocator, *phys_mem);
    let ghost copied_before = copied@;
    let ghost whole = relocate_run(
        relocation::seen(before, copied_before),
        segments@,
        0,
        elf@.dynamic,
        load_base,
        elf.header.e_machine,
    );
    proof {
        physical::lemma_idle(before, copied_before);
    }
    let mut i: usize = 0;
    while i < segments.len()
        invariant
            i <= segments.len(),
            before == state::snapshot(*old(page_table), *old(allocator), *old(phys_mem)),
            copied_before == old(copied)@,
            relocation::on_track(
                whole,
                relocate_run(
                    relocation::seen(state::snapshot(*page_table, *allocator, *phys_mem), copied@),
                    segments@,
                    i as int,
                    elf@.dynamic,
                    load_base,
                    elf.header.e_machine,
                ),
                before,
                copied_before,
                state::snapshot(*page_table, *allocator, *phys_mem),
                copied@,
            ),
            physical::still_tracks(
                relocate_physical(segments@, 0, elf@, load_base),
                relocate_physical(segments@, i as int, elf@, load_base),
                before,
                copied_before,
                state::snapshot(*page_table, *allocator, *phys_mem),
                copied@,
            ),
            whole == relocate_run(
                relocation::seen(before, copied_before),
                segments@,
                0,
                elf@.dynamic,
                load_base,
                elf.header.e_machine,
            ),
        decreases segments.len() - i,
    {
        let ghost now = state::snapshot(*page_table, *allocator, *phys_mem);
        let ghost copied_now = copied@;
        if segments[i].p_type == PT_DYNAMIC {
            let applied = process_dynamic_segment(
                elf,
                load_base,
                page_table,
                allocator,
                phys_mem,
                copied,
            );
            proof {
                let next = state::snapshot(*page_table, *allocator, *phys_mem);
                let step = dynamic_run(
                    relocation::seen(now, copied_now),
                    elf@.dynamic,
                    load_base,
                    elf.header.e_machine,
                );
                let rest = relocate_run(
                    relocation::seen(now, copied_now),
                    segments@,
                    i as int,
                    elf@.dynamic,
                    load_base,
                    elf.header.e_machine,
                );
                let then = relocate_run(
                    relocation::seen(next, copied@),
                    segments@,
                    i + 1,
                    elf@.dynamic,
                    load_base,
                    elf.header.e_machine,
                );
                relocation::lemma_step(
                    whole,
                    rest,
                    before,
                    copied_before,
                    now,
                    copied_now,
                    step,
                    then,
                    next,
                    copied@,
                    applied,
                );
                physical::lemma_tracks_step(
                    relocate_physical(segments@, 0, elf@, load_base),
                    relocate_physical(segments@, i as int, elf@, load_base),
                    before,
                    copied_before,
                    now,
                    copied_now,
                    |memory: Physical<S>|
                        dynamic_run(memory, elf@.dynamic, load_base, elf.header.e_machine),
                    relocate_physical(segments@, i + 1, elf@, load_base),
                    next,
                    copied@,
                    applied,
                );
            }
            match applied {
                Ok(_) => {},
                Err(e) => {
                    return Err(e);
                },
            }
        } else {
            proof {
                physical::lemma_still_same(
                    relocate_physical(segments@, 0, elf@, load_base),
                    relocate_physical(segments@, i as int, elf@, load_base),
                    relocate_physical(segments@, i + 1, elf@, load_base),
                    before,
                    copied_before,
                    now,
                    copied_now,
                );
            }
        }
        i = i + 1;
    }
    proof {
        let now = state::snapshot(*page_table, *allocator, *phys_mem);
        physical::lemma_tracks_end(
            relocate_physical(segments@, 0, elf@, load_base),
            relocate_physical(segments@, i as int, elf@, load_base),
            before,
            copied_before,
            now,
            copied@,
            now,
            copied@,
            Ok(()),
        );
    }
    Ok(())
}

/// Protect the RELRO segments.
fn protect_segments<
    S: PageSize,
    P: PageTable<S>,
    A: FrameAllocator<S>,
    M: PhysicalMemoryAccess,
>(
    segments: &Vec<ProgramHeader>,
    load_base: i64,
    page_table: &mut P,
    allocator: &A,
    phys_mem: &M,
    copied: &CopiedPages,
) -> (r: Result<(), LoadError>)
    requires
        state::snapshot(*old(page_table), *allocator, *phys_mem).sound(copied@),
        forall|i: int|
            0 <= i < segments@.len() && (#[trigger] segments@[i]).p_type == PT_GNU_RELRO
                ==> relro_in_range::<S>(segments@[i], load_base),
    ensures
        ({
            let before = state::snapshot(*old(page_table), *allocator, *phys_mem);
            let after = state::snapshot(*final(page_table), *allocator, *phys_mem);
            &&& after.sound(copied@)
            &&& match r {
                Ok(_) => {
                    &&& before.quiet(after)
                    &&& after.owned(copied@) == before.owned(copied@)
                    &&& after.vm() == relro_vm(before.vm(), segments@, 0, load_base)
                },
                Err(e) => before.refused_by(after, e),
            }
            &&& physical::tracks(
                relro_physical(segments@, 0, load_base),
                before,
                copied@,
                after,
                copied@,
                r,
            )
        }),
{
    let ghost before = state::snapshot(*page_table, *allocator, *phys_mem);
    let ghost run = relro_physical::<S>(segments@, 0, load_base);
    proof {
        physical::lemma_idle(before, copied@);
    }
    let mut i: usize = 0;
    while i < segments.len()
        invariant
            i <= segments.len(),
            before == state::snapshot(*old(page_table), *allocator, *phys_mem),
            run == relro_physical::<S>(segments@, 0, load_base),
            physical::still_tracks(
                run,
                relro_physical(segments@, i as int, load_base),
                before,
                copied@,
                state::snapshot(*page_table, *allocator, *phys_mem),
                copied@,
            ),
            before.quiet(state::snapshot(*page_table, *allocator, *phys_mem)),
            state::snapshot(*page_table, *allocator, *phys_mem).sound(copied@),
            state::snapshot(*page_table, *allocator, *phys_mem).owned(copied@) == before.owned(
                copied@,
            ),
            relro_vm(
                state::snapshot(*page_table, *allocator, *phys_mem).vm(),
                segments@,
                i as int,
                load_base,
            ) == relro_vm(before.vm(), segments@, 0, load_base),
            forall|i: int|
                0 <= i < segments@.len() && (#[trigger] segments@[i]).p_type == PT_GNU_RELRO
                    ==> relro_in_range::<S>(segments@[i], load_base),
        decreases segments.len() - i,
    {
        let ghost now = state::snapshot(*page_table, *allocator, *phys_mem);
        let ghost rest = relro_physical::<S>(segments@, i as int, load_base);
        let ghost then = relro_physical::<S>(segments@, i + 1, load_base);
        if segments[i].p_type == PT_GNU_RELRO {
            let protected = handle_relro_segment(
                &segments[i],
                load_base,
                page_table,
                allocator,
                phys_mem,
                copied,
            );
            proof {
                let next = state::snapshot(*page_table, *allocator, *phys_mem);
                physical::lemma_tracks_step(
                    run,
                    rest,
                    before,
                    copied@,
                    now,
                    copied@,
                    relro_step(segments@[i as int], load_base),
                    then,
                    next,
                    copied@,
                    protected,
                );
            }
            match protected {
                Ok(_) => {},
                Err(e) => {
                    return Err(e);
                },
            }
        } else {
            proof {
                physical::lemma_still_same(run, rest, then, before, copied@, now, copied@);
            }
        }
        i = i + 1;
    }
    proof {
        let now = state::snapshot(*page_table, *allocator, *phys_mem);
        physical::lemma_tracks_end(
            run,
            relro_physical(segments@, i as int, load_base),
            before,
            copied@,
            now,
            copied@,
            now,
            copied@,
            Ok(()),
        );
    }
    Ok(())
}

/// Apply the relocations and then protect the RELRO segments.
fn finish_segments<S: PageSize, P: PageTable<S>, A: FrameAllocator<S>, M: PhysicalMemoryAccess>(
    elf: &ElfFile,
    segments: &Vec<ProgramHeader>,
    load_base: i64,
    page_table: &mut P,
    allocator: &mut A,
    phys_mem: &mut M,
) -> (r: Result<(), LoadError>)
    requires
        state::snapshot(*old(page_table), *old(allocator), *old(phys_mem)).sound(Seq::empty()),
        forall|i: int|
            0 <= i < segments@.len() && (#[trigger] segments@[i]).p_type == PT_GNU_RELRO
                ==> relro_in_range::<S>(segments@[i], load_base),
    ensures
        ({
            let before = state::snapshot(*old(page_table), *old(allocator), *old(phys_mem));
            let after = state::snapshot(*final(page_table), *final(allocator), *final(phys_mem));
            let run = finish_run(before.vm(), segments@, elf@, load_base);
            &&& relocation::ends_as(run, before, after, r)
            &&& exists|copied: Seq<u64>| #[trigger]
                physical::tracks(
                    finish_physical(segments@, elf@, load_base),
                    before,
                    Seq::empty(),
                    after,
                    copied,
                    r,
                )
        }),
{
    let ghost before = state::snapshot(*page_table, *allocator, *phys_mem);
    let ghost run = finish_run(before.vm(), segments@, elf@, load_base);
    // Apply relocations from Dynamic segment.
    let mut copied = CopiedPages::new();
    let relocated = relocate_segments(
        elf,
        segments,
        load_base,
        page_table,
        allocator,
        phys_mem,
        &mut copied,
    );
    let ghost mid = state::snapshot(*page_table, *allocator, *phys_mem);
    let ghost whole = finish_physical::<S>(segments@, elf@, load_base);
    let ghost rest = relro_physical::<S>(segments@, 0, load_base);
    proof {
        physical::lemma_idle(before, Seq::empty());
        physical::lemma_tracks_step(
            whole,
            whole,
            before,
            Seq::empty(),
            before,
            Seq::empty(),
            relocate_physical(segments@, 0, elf@, load_base),
            rest,
            mid,
            copied@,
            relocated,
        );
    }
    match relocated {
        Ok(done) => {
            assert(done == ());
        },
        Err(_) => {
            assert(relocation::follows(run, before, Seq::empty(), mid, copied@, relocated));
            return relocated;
        },
    }
    // Mark RELRO regions as read-only.
    let protected = protect_segments(segments, load_base, page_table, allocator, phys_mem, &copied);
    proof {
        let after = state::snapshot(*page_table, *allocator, *phys_mem);
        assert(relocation::follows(run, before, Seq::empty(), after, copied@, protected));
        let done = |memory: Physical<S>| Run::<Physical<S>>::Done(memory);
        physical::lemma_tracks_step(
            whole,
            rest,
            before,
            Seq::empty(),
            mid,
            copied@,
            rest,
            done,
            after,
            copied@,
            protected,
        );
        if protected is Ok {
            physical::lemma_tracks_end(
                whole,
                done,
                before,
                Seq::empty(),
                after,
                copied@,
                after,
                copied@,
                protected,
            );
        }
    }
    protected
}

/// Once the LOAD segments are mapped, relocating and protecting them is what is left of loading
/// a file.
proof fn lemma_load_step<S: PageSize>(
    before: Snapshot<S>,
    elf: ElfView,
    kernel_phys_base: PhysAddr,
    load_base: i64,
    use_huge_pages: bool,
    now: Snapshot<S>,
    r: Result<(), LoadError>,
)
    requires
        elf.segments is Some,
        physical::tracks(
            load_physical(
                elf.segments.unwrap(),
                0,
                kernel_phys_base,
                load_base,
                use_huge_pages,
            ),
            before,
            Seq::empty(),
            now,
            Seq::empty(),
            r,
        ),
    ensures
        ({
            let whole = elf_physical::<S>(elf, kernel_phys_base, load_base, use_huge_pages);
            let rest = finish_physical::<S>(elf.segments.unwrap(), elf, load_base);
            &&& r is Ok ==> physical::still_tracks(
                whole,
                rest,
                before,
                Seq::empty(),
                now,
                Seq::empty(),
            )
            &&& r is Err ==> physical::tracks(whole, before, Seq::empty(), now, Seq::empty(), r)
        }),
{
    let whole = elf_physical::<S>(elf, kernel_phys_base, load_base, use_huge_pages);
    let segments = elf.segments.unwrap();
    physical::lemma_idle(before, Seq::empty());
    physical::lemma_tracks_step(
        whole,
        whole,
        before,
        Seq::empty(),
        before,
        Seq::empty(),
        load_physical(segments, 0, kernel_phys_base, load_base, use_huge_pages),
        finish_physical(segments, elf, load_base),
        now,
        Seq::empty(),
        r,
    );
}

/// A run whose rest has ended has ended.
proof fn lemma_finished<S: PageSize>(
    before: Snapshot<S>,
    whole: spec_fn(Physical<S>) -> Run<Physical<S>>,
    now: Snapshot<S>,
    rest: spec_fn(Physical<S>) -> Run<Physical<S>>,
    after: Snapshot<S>,
    r: Result<(), LoadError>,
)
    requires
        physical::still_tracks(whole, rest, before, Seq::empty(), now, Seq::empty()),
        exists|copied: Seq<u64>| #[trigger]
            physical::tracks(rest, now, Seq::empty(), after, copied, r),
    ensures
        exists|copied: Seq<u64>| #[trigger]
            physical::tracks(whole, before, Seq::empty(), after, copied, r),
{
    let done = |memory: Physical<S>| Run::<Physical<S>>::Done(memory);
    let none = Seq::<u64>::empty();
    let copied = choose|copied: Seq<u64>| #[trigger]
        physical::tracks(rest, now, none, after, copied, r);
    physical::lemma_tracks_step(
        whole,
        rest,
        before,
        none,
        now,
        none,
        rest,
        done,
        after,
        copied,
        r,
    );
    if r is Ok {
        physical::lemma_tracks_end(whole, done, before, none, after, copied, after, copied, r);
    }
    assert(physical::tracks(whole, before, none, after, copied, r));
}

/// Map all LOAD segments of the kernel ELF into the page table.
///
/// Returns the TLS template if a TLS segment is present.
pub fn load_and_relocate_elf<
    S: PageSize,
    P: PageTable<S>,
    A: FrameAllocator<S>,
    M: PhysicalMemoryAccess,
>(
    elf: &ElfFile,
    kernel_phys_base: PhysAddr,
    load_base: i64,
    use_huge_pages: bool,
    page_table: &mut P,
    allocator: &mut A,
    phys_mem: &mut M,
) -> (r: Result<Option<TlsTemplate>, LoadError>)
    requires
        state::snapshot(*old(page_table), *old(allocator), *old(phys_mem)).sound(Seq::empty()),
        elf_in_range::<S>(elf@, kernel_phys_base, load_base),
        elf_reserved::<S>(elf@, kernel_phys_base, load_base, old(allocator).available()),
    ensures
        ({
            let before = state::snapshot(*old(page_table), *old(allocator), *old(phys_mem));
            let after = state::snapshot(*final(page_table), *final(allocator), *final(phys_mem));
            let run = elf_run(
                before.vm(),
                before.memory,
                elf@,
                kernel_phys_base,
                load_base,
                use_huge_pages,
            );
            &&& relocation::ends_as(run, before, after, physical::outcome(r))
            &&& loaded(
                before,
                elf@,
                kernel_phys_base,
                load_base,
                use_huge_pages,
                after,
                physical::outcome(r),
            )
        }),
        r is Ok ==> elf@.segments is Some && r.unwrap() == first_tls(
            elf@.segments.unwrap(),
            elf@.segments.unwrap().len() as int,
            load_base,
        ),
{
    let ghost before = state::snapshot(*page_table, *allocator, *phys_mem);
    let ghost none = Seq::<u64>::empty();
    let ghost whole = elf_physical::<S>(elf@, kernel_phys_base, load_base, use_huge_pages);
    let segments = match &elf.segments {
        Some(segments) => segments,
        None => {
            let r = Err(LoadError::InvalidElf("no program headers"));
            proof {
                let run = elf_run(
                    before.vm(),
                    before.memory,
                    elf@,
                    kernel_phys_base,
                    load_base,
                    use_huge_pages,
                );
                assert(relocation::follows(
                    run,
                    before,
                    Seq::empty(),
                    before,
                    Seq::empty(),
                    physical::outcome(r),
                ));
                assert(physical::tracks(
                    whole,
                    before,
                    none,
                    before,
                    none,
                    physical::outcome(r),
                )) by {
                    physical::lemma_idle(before, none);
                }
            }
            return r;
        },
    };
    proof {
        lemma_load_run_whole(
            before.vm(),
            before.memory,
            segments@,
            0,
            kernel_phys_base,
            load_base,
            use_huge_pages,
        );
    }
    // Phase 1: Map LOAD segments, extract TLS.
    let mapped = load_segments(
        segments,
        kernel_phys_base,
        load_base,
        use_huge_pages,
        page_table,
        allocator,
        phys_mem,
    );
    let ghost now = state::snapshot(*page_table, *allocator, *phys_mem);
    let ghost rest = finish_physical::<S>(segments@, elf@, load_base);
    proof {
        lemma_load_step(
            before,
            elf@,
            kernel_phys_base,
            load_base,
            use_huge_pages,
            now,
            physical::outcome(mapped),
        );
    }
    let template = match mapped {
        Ok(template) => template,
        Err(e) => {
            proof {
                let after = now;
                let run = elf_run(
                    before.vm(),
                    before.memory,
                    elf@,
                    kernel_phys_base,
                    load_base,
                    use_huge_pages,
                );
                assert(relocation::follows(
                    run,
                    before,
                    Seq::empty(),
                    after,
                    Seq::empty(),
                    Err(e),
                ));
                assert(physical::tracks(whole, before, none, now, none, Err(e)));
            }
            return Err(e);
        },
    };
    // Phases 2 and 3: Apply relocations, then mark RELRO regions as read-only.
    let ended = finish_segments(elf, segments, load_base, page_table, allocator, phys_mem);
    proof {
        let after = state::snapshot(*page_table, *allocator, *phys_mem);
        let run = finish_run(now.vm(), segments@, elf@, load_base);
        let copied = choose|copied: Seq<u64>| #[trigger]
            relocation::follows(run, now, Seq::empty(), after, copied, ended);
        relocation::lemma_step(
            run,
            run,
            before,
            Seq::empty(),
            now,
            Seq::empty(),
            run,
            run,
            after,
            copied,
            ended,
        );
        assert(run == elf_run(
            before.vm(),
            before.memory,
            elf@,
            kernel_phys_base,
            load_base,
            use_huge_pages,
        ));
        assert(relocation::follows(run, before, Seq::empty(), after, copied, ended));
        lemma_finished(before, whole, now, rest, after, ended);
    }
    match ended {
        Ok(done) => {
            assert(done == ());
            Ok(template)
        },
        Err(e) => Err(e),
    }
}

} // verus!
