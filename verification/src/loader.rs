//! The main `Loader` type that orchestrates kernel ELF loading and
//! additional memory region mapping.

use crate::address_space;
use crate::address_space::{AddressSpace, MAX_REGIONS};
use crate::arith;
use crate::elf_file;
use crate::elf_file::{ElfFile, ElfView, ProgramHeader, ET_DYN, ET_EXEC, PT_GNU_RELRO, PT_LOAD};
use crate::elf_loading;
use crate::error::LoadError;
use crate::mapping;
use crate::paging;
use crate::physical;
use crate::relocation;
use crate::state;
use crate::state::Snapshot;
use crate::traits::{
    FrameAllocator, PageFlags, PageSize, PageTable, PhysAddr, PhysicalMemoryAccess, VirtAddr,
};
use crate::zeroed;
use crate::LoadedKernel;
use core::marker::PhantomData;
use vstd::prelude::*;

verus! {

/// How to place the kernel in virtual memory.
#[derive(Clone, Copy, Debug, PartialEq, Eq, Structural)]
pub enum KernelPlacement {
    /// For ET_EXEC: use ELF addresses as-is.
    /// For ET_DYN: loader finds a free region automatically.
    Auto,
    /// Place the kernel at a specific virtual base (ET_DYN only).
    Fixed(VirtAddr),
}

/// How to place a mapped region in virtual memory.
#[derive(Clone, Copy, Debug, PartialEq, Eq, Structural)]
pub enum RegionPlacement {
    /// Let the loader choose a free region.
    Auto,
    /// Place at a specific virtual address.
    Fixed(VirtAddr),
}

/// The ELF loader, generic over the platform's page size type `S`.
///
/// Holds references to the page table, frame allocator, and physical
/// memory accessor. Tracks the kernel's virtual address space to
/// support both kernel loading and additional data mapping.
///
/// Each method that may choose an address takes a word from the caller's random number
/// generator for ASLR, or `None` to disable it.
pub struct Loader<
    'a,
    S: PageSize,
    P: PageTable<S>,
    A: FrameAllocator<S>,
    M: PhysicalMemoryAccess,
> {
    /// The kernel's page table (not the active one).
    pub page_table: &'a mut P,
    /// Frame allocator for physical memory.
    pub allocator: &'a mut A,
    /// Physical memory access (e.g. identity-mapped).
    pub phys_mem: &'a mut M,
    /// The used virtual addresses.
    pub address_space: AddressSpace,
    /// The page sizes of the platform.
    pub page_sizes: PhantomData<S>,
}

/// The lowest address of the LOAD segments.
pub open spec fn lowest_start(segments: Seq<ProgramHeader>) -> u64
    decreases segments.len(),
{
    if segments.len() == 0 {
        u64::MAX
    } else {
        let rest = lowest_start(segments.drop_last());
        let last = segments.last();
        if last.p_type == PT_LOAD && last.p_vaddr < rest {
            last.p_vaddr
        } else {
            rest
        }
    }
}

/// The highest end of the LOAD segments.
pub open spec fn highest_end(segments: Seq<ProgramHeader>) -> int
    decreases segments.len(),
{
    if segments.len() == 0 {
        0
    } else {
        let rest = highest_end(segments.drop_last());
        let last = segments.last();
        if last.p_type == PT_LOAD && last.p_vaddr + last.p_memsz > rest {
            last.p_vaddr + last.p_memsz
        } else {
            rest
        }
    }
}

/// The largest alignment of the LOAD segments, at least one.
pub open spec fn largest_align(segments: Seq<ProgramHeader>) -> u64
    decreases segments.len(),
{
    if segments.len() == 0 {
        1
    } else {
        let rest = largest_align(segments.drop_last());
        let last = segments.last();
        if last.p_type == PT_LOAD && last.p_align > rest {
            last.p_align
        } else {
            rest
        }
    }
}

/// The memory that a kernel needs: total size, alignment, and lowest address.
pub open spec fn memory_requirements(elf: ElfView) -> Result<(u64, u64, u64), LoadError> {
    match elf.segments {
        None => Err(LoadError::InvalidElf("no program headers")),
        Some(segments) => {
            let min_addr = lowest_start(segments);
            if min_addr == u64::MAX {
                Err(LoadError::InvalidElf("no LOAD segments"))
            } else {
                Ok(((highest_end(segments) - min_addr) as u64, largest_align(segments), min_addr))
            }
        },
    }
}

/// The LOAD segments of a file end inside the address space.
pub open spec fn ends_in_range(elf: ElfView) -> bool {
    elf.segments matches Some(segments) ==> forall|i: int|
        0 <= i < segments.len() && (#[trigger] segments[i]).p_type == PT_LOAD
            ==> segments[i].p_vaddr + segments[i].p_memsz <= u64::MAX
}

/// Calculate ELF memory requirements: (total_size, alignment, min_addr).
pub fn calc_elf_memory_requirements(elf: &ElfFile) -> (r: Result<(u64, u64, u64), LoadError>)
    requires
        ends_in_range(elf@),
    ensures
        r == memory_requirements(elf@),
        r matches Ok((size, align, min_addr)) ==> {
            &&& align > 0
            &&& min_addr + size <= u64::MAX
            &&& size == highest_end(elf@.segments.unwrap()) - min_addr
        },
{
    let segments = match &elf.segments {
        Some(segments) => segments,
        None => {
            return Err(LoadError::InvalidElf("no program headers"));
        },
    };
    let mut min_addr: u64 = u64::MAX;
    let mut max_addr: u64 = 0;
    let mut max_align: u64 = 1;
    let mut i: usize = 0;
    assert(segments@.take(0) =~= Seq::empty());
    while i < segments.len()
        invariant
            i <= segments.len(),
            elf@.segments == Some(segments@),
            ends_in_range(elf@),
            min_addr == lowest_start(segments@.take(i as int)),
            max_addr == highest_end(segments@.take(i as int)),
            max_align == largest_align(segments@.take(i as int)),
            max_align > 0,
            min_addr == u64::MAX || min_addr <= max_addr,
        decreases segments.len() - i,
    {
        let phdr = segments[i];
        assert(phdr == elf@.segments.unwrap()[i as int]);
        if phdr.p_type == PT_LOAD {
            let start: u64 = phdr.p_vaddr;
            let end: u64 = phdr.p_vaddr + phdr.p_memsz;
            if start < min_addr {
                min_addr = start;
            }
            if end > max_addr {
                max_addr = end;
            }
            if phdr.p_align > max_align {
                max_align = phdr.p_align;
            }
        }
        proof {
            assert(segments@.take(i + 1).drop_last() =~= segments@.take(i as int));
            assert(segments@.take(i + 1).last() == phdr);
        }
        i = i + 1;
    }
    assert(segments@.take(i as int) =~= segments@);
    if min_addr == u64::MAX {
        return Err(LoadError::InvalidElf("no LOAD segments"));
    }
    let size: u64 = max_addr - min_addr;
    Ok((size, max_align, min_addr))
}

/// Where a region of `size` bytes goes and which addresses are used then, or `None` where no
/// address is free.
pub open spec fn placed(
    regions: Seq<(u64, u64)>,
    size: u64,
    alignment: u64,
    placement: RegionPlacement,
    rng: Option<u64>,
) -> Option<(VirtAddr, Seq<(u64, u64)>)> {
    match placement {
        RegionPlacement::Auto => match address_space::free_address(regions, size, alignment, rng) {
            Some(addr) => Some(
                (
                    VirtAddr(addr as u64),
                    address_space::marked(regions, addr as u64, size),
                ),
            ),
            None => None,
        },
        RegionPlacement::Fixed(addr) => Some(
            (addr, address_space::marked(regions, addr.0, size)),
        ),
    }
}

/// Choose a place for a region and mark it as used.
fn place_region(
    space: &mut AddressSpace,
    size: u64,
    alignment: u64,
    placement: RegionPlacement,
    rng: Option<u64>,
) -> (r: Option<VirtAddr>)
    requires
        placement is Auto ==> size > 0 && vstd::arithmetic::power2::is_pow2(alignment as int),
        size > 0 && placed(old(space)@, size, alignment, placement, rng) is Some ==> old(
            space,
        )@.len() < MAX_REGIONS,
    ensures
        match placed(old(space)@, size, alignment, placement, rng) {
            Some((addr, regions)) => r == Some(addr) && final(space)@ == regions,
            None => r is None && final(space)@ == old(space)@,
        },
        placement is Auto ==> (r matches Some(addr) ==> addr.0 + size <= u64::MAX),
{
    match placement {
        RegionPlacement::Auto => {
            let ghost before = space@;
            let found = space.find_free(size, alignment, rng);
            proof {
                address_space::lemma_found_is_free(before, size, alignment, rng);
            }
            found
        },
        RegionPlacement::Fixed(addr) => {
            space.mark_used(addr, size);
            Some(addr)
        },
    }
}

/// The alignment of a region that is mapped at an address of the loader's choice: that of the
/// largest page that may be used.
pub open spec fn region_alignment<S: PageSize>(use_huge_pages: bool) -> u64 {
    if use_huge_pages && S::huge_sizes().len() > 0 {
        S::huge_sizes()[0].size()
    } else {
        S::BASE.size()
    }
}

/// The size of a region, rounded up to whole pages.
pub open spec fn page_aligned<S: PageSize>(size: u64) -> u64 {
    arith::ceil_to(size as int, paging::base::<S>()) as u64
}

/// The result of mapping a physical region at `virt`, and the states before and after.
pub open spec fn region_mapped<S: PageSize>(
    before: Snapshot<S>,
    virt: VirtAddr,
    phys_start: PhysAddr,
    size: u64,
    flags: PageFlags,
    use_huge_pages: bool,
    after: Snapshot<S>,
    r: Result<VirtAddr, LoadError>,
) -> bool {
    &&& after.memory == before.memory
    &&& after.available.subset_of(before.available)
    &&& before.only_tables(after)
    &&& paging::wf_entries(after.entries)
    &&& match r {
        Ok(addr) => {
            &&& addr == virt
            &&& before.quiet(after)
            &&& virt.0 as int % paging::base::<S>() == 0
            &&& phys_start.0 as int % paging::base::<S>() == 0
            &&& forall|v: int|
                virt.0 <= v < virt.0 + arith::ceil_to(size as int, paging::base::<S>())
                    ==> !#[trigger] paging::mapped(before.entries, v)
            &&& after.entries == before.entries.union_prefer_right(
                mapping::page_plan(
                    virt.0 as int,
                    phys_start.0 as int,
                    size as int,
                    flags,
                    use_huge_pages,
                ),
            )
        },
        Err(e) => {
            &&& after.unmap_refusals == before.unmap_refusals
            &&& exists|at: u64| #[trigger]
                mapping::refused_at(
                    before.entries,
                    before.refusals,
                    mapping::page_plan(
                        virt.0 as int,
                        phys_start.0 as int,
                        size as int,
                        flags,
                        use_huge_pages,
                    ),
                    at,
                    after.entries,
                    after.refusals,
                    e,
                )
        },
    }
}

/// The result of mapping zeroed memory at `virt`, and the states before and after.
pub open spec fn memory_mapped<S: PageSize>(
    before: Snapshot<S>,
    virt: VirtAddr,
    size: u64,
    flags: PageFlags,
    after: Snapshot<S>,
    r: Result<VirtAddr, LoadError>,
) -> bool {
    &&& before.kept(Seq::empty(), after)
    &&& after.available.subset_of(before.available)
    &&& paging::wf_entries(after.entries)
    &&& paging::unshared(before.entries, before.available) ==> paging::unshared(
        after.entries,
        after.available,
    )
    &&& match r {
        Ok(addr) => {
            &&& addr == virt
            &&& before.quiet(after)
            &&& size > 0 ==> virt.0 as int % paging::base::<S>() == 0
            &&& zeroed::freshly_mapped(
                before,
                after,
                virt.0 as int,
                virt.0 + arith::ceil_to(size as int, paging::base::<S>()),
                flags,
            )
        },
        Err(e) => {
            &&& e is FrameAllocationFailed || e is MappingFailed
            &&& before.refused_by(after, e)
        },
    }
    &&& physical::tracks(
        zeroed::zeroed_run(
            virt.0 as int,
            virt.0 + arith::ceil_to(size as int, paging::base::<S>()),
            flags,
        ),
        before,
        Seq::empty(),
        after,
        Seq::empty(),
        physical::outcome(r),
    )
}

/// The offset at which a kernel is loaded, and the addresses that are used once it is found.
pub open spec fn kernel_base<S: PageSize>(
    elf: ElfView,
    regions: Seq<(u64, u64)>,
    placement: KernelPlacement,
    rng: Option<u64>,
) -> Result<(int, Seq<(u64, u64)>), LoadError> {
    if elf.header.e_type == ET_EXEC {
        match placement {
            KernelPlacement::Auto => Ok((0, regions)),
            KernelPlacement::Fixed(_) => Err(LoadError::InvalidPlacement),
        }
    } else if elf.header.e_type == ET_DYN {
        match memory_requirements(elf) {
            Err(e) => Err(e),
            Ok((size, align, min_addr)) => match placement {
                KernelPlacement::Auto => {
                    let aligned_size = arith::ceil_to(size as int, paging::base::<S>()) as u64;
                    match address_space::free_address(regions, aligned_size, align, rng) {
                        None => Err(LoadError::AddressSpaceFull),
                        Some(addr) => Ok(
                            (
                                arith::signed(addr as u64) - arith::signed(min_addr),
                                address_space::marked(regions, addr as u64, aligned_size),
                            ),
                        ),
                    }
                },
                KernelPlacement::Fixed(base) => Ok((arith::signed(base.0), regions)),
            },
        }
    } else {
        Err(LoadError::UnsupportedElfType(elf.header.e_type))
    }
}

/// The first address of the pages that a kernel occupies.
pub open spec fn kernel_start<S: PageSize>(min_addr: u64, load_base: i64) -> int {
    arith::floor_to(arith::rebased(min_addr, load_base) as int, paging::base::<S>())
}

/// The end of the pages that a kernel occupies.
pub open spec fn kernel_end<S: PageSize>(min_addr: u64, size: u64, load_base: i64) -> int {
    arith::ceil_to(arith::rebased(min_addr, load_base) + size, paging::base::<S>())
}

/// The addresses that are used once the pages of the kernel are marked.
pub open spec fn with_kernel<S: PageSize>(
    elf: ElfView,
    load_base: i64,
    regions: Seq<(u64, u64)>,
) -> Seq<(u64, u64)> {
    match memory_requirements(elf) {
        Ok((size, _, min_addr)) => {
            let start = kernel_start::<S>(min_addr, load_base);
            let end = kernel_end::<S>(min_addr, size, load_base);
            address_space::marked(regions, start as u64, (end - start) as u64)
        },
        Err(_) => regions,
    }
}

/// The offset at which a kernel is loaded, and the addresses that are used afterwards.
pub open spec fn kernel_plan<S: PageSize>(
    elf: ElfView,
    regions: Seq<(u64, u64)>,
    placement: KernelPlacement,
    rng: Option<u64>,
) -> Result<(i64, Seq<(u64, u64)>), LoadError> {
    match kernel_base::<S>(elf, regions, placement, rng) {
        Ok((load_base, chosen)) => Ok(
            (load_base as i64, with_kernel::<S>(elf, load_base as i64, chosen)),
        ),
        Err(e) => Err(e),
    }
}

/// The numbers that choosing an offset computes are in range, a search for a free region is
/// for a region of at least one byte with an alignment that is a power of two, and the address
/// space has room for the result.
pub open spec fn base_computable<S: PageSize>(
    elf: ElfView,
    regions: Seq<(u64, u64)>,
    placement: KernelPlacement,
    rng: Option<u64>,
) -> bool {
    elf.header.e_type == ET_DYN ==> {
        &&& ends_in_range(elf)
        &&& memory_requirements(elf) matches Ok((size, align, _)) ==> {
            &&& size + paging::base::<S>() - 1 <= u64::MAX
            &&& placement is Auto ==> {
                &&& size > 0
                &&& vstd::arithmetic::power2::is_pow2(align as int)
                &&& kernel_base::<S>(elf, regions, placement, rng) matches Ok((load_base, _)) ==> {
                    &&& i64::MIN <= load_base <= i64::MAX
                    &&& regions.len() < MAX_REGIONS
                }
            }
        }
    }
}

/// The numbers that marking the pages of a kernel computes are in range, and the address space
/// has room for one more region.
pub open spec fn kernel_markable<S: PageSize>(
    elf: ElfView,
    load_base: i64,
    regions: Seq<(u64, u64)>,
) -> bool {
    &&& ends_in_range(elf)
    &&& memory_requirements(elf) matches Ok((size, _, min_addr)) ==> {
        let start = arith::rebased(min_addr, load_base);
        &&& start + size + paging::base::<S>() - 1 <= u64::MAX
        &&& kernel_start::<S>(min_addr, load_base) < kernel_end::<S>(min_addr, size, load_base)
            ==> regions.len() < MAX_REGIONS
    }
}

/// Placing a kernel stays inside the limits of the machine and of the address space.
pub open spec fn kernel_placeable<S: PageSize>(
    elf: ElfView,
    regions: Seq<(u64, u64)>,
    placement: KernelPlacement,
    rng: Option<u64>,
) -> bool {
    &&& base_computable::<S>(elf, regions, placement, rng)
    &&& kernel_base::<S>(elf, regions, placement, rng) matches Ok((load_base, chosen))
        ==> kernel_markable::<S>(elf, load_base as i64, chosen)
}

/// Choose the offset at which a kernel is loaded and mark its pages as used.
pub fn place_kernel<S: PageSize>(
    address_space: &mut AddressSpace,
    elf: &ElfFile,
    placement: KernelPlacement,
    rng: Option<u64>,
) -> (r: Result<i64, LoadError>)
    requires
        kernel_placeable::<S>(elf@, old(address_space)@, placement, rng),
    ensures
        match kernel_plan::<S>(elf@, old(address_space)@, placement, rng) {
            Ok((load_base, regions)) => {
                &&& r == Ok::<i64, LoadError>(load_base)
                &&& final(address_space)@ == regions
            },
            Err(e) => {
                &&& r == Err::<i64, LoadError>(e)
                &&& final(address_space)@ == old(address_space)@
            },
        },
{
    let base_size: u64 = S::BASE.bytes();
    proof {
        arith::lemma_powers_divide(base_size as int, base_size as int);
    }
    let elf_type: u16 = elf.header.e_type;
    let load_base: i64 = match elf_type {
        ET_EXEC => {
            match placement {
                // ET_EXEC uses addresses as-is (no relocation).
                KernelPlacement::Auto => 0,
                KernelPlacement::Fixed(_) => {
                    return Err(LoadError::InvalidPlacement);
                },
            }
        },
        ET_DYN => {
            let (size, align, min_addr): (u64, u64, u64) = match calc_elf_memory_requirements(
                elf,
            ) {
                Ok(needed) => needed,
                Err(e) => {
                    return Err(e);
                },
            };
            let page_aligned_size: u64 = arith::align_up(size, base_size);
            match placement {
                KernelPlacement::Auto => {
                    proof {
                        arith::lemma_ceil_facts(size as int, base_size as int);
                    }
                    let virt: VirtAddr = match address_space.find_free(
                        page_aligned_size,
                        align,
                        rng,
                    ) {
                        Some(virt) => virt,
                        None => {
                            return Err(LoadError::AddressSpaceFull);
                        },
                    };
                    arith::to_signed(virt.as_u64()) - arith::to_signed(min_addr)
                },
                KernelPlacement::Fixed(base) => arith::to_signed(base.as_u64()),
            }
        },
        _ => {
            return Err(LoadError::UnsupportedElfType(elf_type));
        },
    };
    // Mark the kernel's virtual address range as used (page-aligned).
    match calc_elf_memory_requirements(elf) {
        Ok((size, _, min_addr)) => {
            let start: u64 = arith::rebase(min_addr, load_base);
            let aligned_start: u64 = arith::align_down(start, base_size);
            let end: u64 = start + size;
            let aligned_end: u64 = arith::align_up(end, base_size);
            proof {
                arith::lemma_ceil_facts(end as int, base_size as int);
            }
            address_space.mark_used(VirtAddr::new(aligned_start), aligned_end - aligned_start);
        },
        Err(_) => {},
    }
    Ok(load_base)
}

/// Placing a kernel keeps the list of used regions canonical, and adds at most two regions.
pub proof fn lemma_kernel_plan<S: PageSize>(
    elf: ElfView,
    regions: Seq<(u64, u64)>,
    placement: KernelPlacement,
    rng: Option<u64>,
)
    requires
        address_space::canonical(regions),
    ensures
        kernel_plan::<S>(elf, regions, placement, rng) matches Ok((_, after)) ==> {
            &&& address_space::canonical(after)
            &&& after.len() <= regions.len() + 2
        },
{
    match kernel_base::<S>(elf, regions, placement, rng) {
        Ok((load_base, chosen)) => {
            match memory_requirements(elf) {
                Ok((size, align, min_addr)) => {
                    let aligned_size = arith::ceil_to(size as int, paging::base::<S>()) as u64;
                    match address_space::free_address(regions, aligned_size, align, rng) {
                        Some(addr) => {
                            address_space::lemma_marked(regions, addr as u64, aligned_size);
                        },
                        None => {},
                    }
                    let start = kernel_start::<S>(min_addr, load_base as i64);
                    let end = kernel_end::<S>(min_addr, size, load_base as i64);
                    address_space::lemma_marked(chosen, start as u64, (end - start) as u64);
                },
                Err(_) => {},
            }
        },
        Err(_) => {},
    }
}

/// Loading a kernel stays inside the limits of the machine, and the frames that back the
/// segments cannot be handed out.
pub open spec fn loadable<S: PageSize>(
    elf: ElfView,
    regions: Seq<(u64, u64)>,
    available: Set<int>,
    kernel_phys_base: PhysAddr,
    placement: KernelPlacement,
    rng: Option<u64>,
) -> bool {
    &&& kernel_placeable::<S>(elf, regions, placement, rng)
    &&& kernel_plan::<S>(elf, regions, placement, rng) matches Ok((load_base, _)) ==> {
        &&& elf_loading::elf_in_range::<S>(elf, kernel_phys_base, load_base)
        &&& elf_loading::elf_reserved::<S>(elf, kernel_phys_base, load_base, available)
    }
}

/// The result of loading a kernel, and the states before and after: where no place is found,
/// nothing changes; otherwise its pages are marked as used and its segments are mapped,
/// relocated and protected.
pub open spec fn kernel_loaded<S: PageSize>(
    elf: ElfView,
    before: Snapshot<S>,
    regions: Seq<(u64, u64)>,
    kernel_phys_base: PhysAddr,
    placement: KernelPlacement,
    use_huge_pages: bool,
    rng: Option<u64>,
    after: Snapshot<S>,
    regions_after: Seq<(u64, u64)>,
    r: Result<LoadedKernel, LoadError>,
) -> bool {
    match kernel_plan::<S>(elf, regions, placement, rng) {
        Err(e) => {
            &&& r == Err::<LoadedKernel, LoadError>(e)
            &&& after == before
            &&& regions_after == regions
        },
        Ok((load_base, marked)) => {
            let run = elf_loading::elf_run(
                before.vm(),
                before.memory,
                elf,
                kernel_phys_base,
                load_base,
                use_huge_pages,
            );
            &&& regions_after == marked
            &&& relocation::ends_as(run, before, after, physical::outcome(r))
            &&& elf_loading::loaded(
                before,
                elf,
                kernel_phys_base,
                load_base,
                use_huge_pages,
                after,
                physical::outcome(r),
            )
            &&& r matches Ok(kernel) ==> {
                &&& elf.segments is Some
                &&& kernel == LoadedKernel {
                    entry_point: VirtAddr(arith::rebased(elf.header.e_entry, load_base)),
                    load_base,
                    tls_template: elf_loading::first_tls(
                        elf.segments.unwrap(),
                        elf.segments.unwrap().len() as int,
                        load_base,
                    ),
                }
            }
        },
    }
}

/// The result of loading a kernel from the bytes of its file, and the states before and after.
pub open spec fn file_loaded<S: PageSize>(
    bytes: Seq<u8>,
    before: Snapshot<S>,
    regions: Seq<(u64, u64)>,
    kernel_phys_base: PhysAddr,
    placement: KernelPlacement,
    use_huge_pages: bool,
    rng: Option<u64>,
    after: Snapshot<S>,
    regions_after: Seq<(u64, u64)>,
    r: Result<LoadedKernel, LoadError>,
) -> bool {
    if kernel_phys_base.0 as int % paging::base::<S>() != 0 {
        &&& r == Err::<LoadedKernel, LoadError>(LoadError::NotPageAligned)
        &&& after == before
        &&& regions_after == regions
    } else {
        match elf_file::parsed(bytes) {
            None => {
                &&& r == Err::<LoadedKernel, LoadError>(
                    LoadError::InvalidElf("failed to parse ELF file"),
                )
                &&& after == before
                &&& regions_after == regions
            },
            Some(elf) => kernel_loaded(
                elf,
                before,
                regions,
                kernel_phys_base,
                placement,
                use_huge_pages,
                rng,
                after,
                regions_after,
                r,
            ),
        }
    }
}

/// The frames that back the file part of a LOAD segment lie in the pages of the `len` bytes from
/// `kernel_phys_base` on.
pub open spec fn segment_within<S: PageSize>(
    phdr: ProgramHeader,
    kernel_phys_base: PhysAddr,
    load_base: i64,
    len: int,
) -> bool {
    let start = elf_loading::file_frames_start::<S>(phdr, kernel_phys_base);
    phdr.p_type == PT_LOAD && phdr.p_filesz > 0 ==> {
        &&& kernel_phys_base.0 <= start
        &&& start + elf_loading::file_pages_len::<S>(phdr, load_base) <= arith::ceil_to(
            kernel_phys_base.0 + len,
            paging::base::<S>(),
        )
    }
}

/// Loading a file stays inside the limits of the machine, and the frames that back its segments
/// lie in the `len` bytes from `kernel_phys_base` on.
pub open spec fn segments_loadable<S: PageSize>(
    elf: ElfView,
    kernel_phys_base: PhysAddr,
    load_base: i64,
    len: int,
) -> bool {
    elf.segments matches Some(segments) ==> forall|i: int|
        0 <= i < segments.len() ==> {
            &&& elf_loading::segment_in_range::<S>(
                #[trigger] segments[i],
                kernel_phys_base,
                load_base,
            )
            &&& segment_within::<S>(segments[i], kernel_phys_base, load_base, len)
        }
}

/// A file that can be loaded: placing the kernel and its segments stays inside the limits of the
/// machine and of the address space, and the frames that back the segments lie in the `len` bytes
/// from `kernel_phys_base` on.
pub open spec fn file_loadable<S: PageSize>(
    elf: ElfView,
    regions: Seq<(u64, u64)>,
    kernel_phys_base: PhysAddr,
    placement: KernelPlacement,
    rng: Option<u64>,
    len: int,
) -> bool {
    &&& kernel_placeable::<S>(elf, regions, placement, rng)
    &&& kernel_plan::<S>(elf, regions, placement, rng) matches Ok((load_base, _))
        ==> segments_loadable::<S>(elf, kernel_phys_base, load_base, len)
}

/// Whether the LOAD segments of a file end inside the address space.
fn check_ends(elf: &ElfFile) -> (r: bool)
    ensures
        r == ends_in_range(elf@),
{
    let segments = match &elf.segments {
        Some(segments) => segments,
        None => {
            return true;
        },
    };
    let ghost list = elf@.segments.unwrap();
    let mut i: usize = 0;
    while i < segments.len()
        invariant
            i <= segments.len(),
            list == segments@,
            elf@.segments == Some(list),
            forall|j: int|
                0 <= j < i && (#[trigger] list[j]).p_type == PT_LOAD ==> list[j].p_vaddr
                    + list[j].p_memsz <= u64::MAX,
        decreases segments.len() - i,
    {
        let phdr = segments[i];
        if phdr.p_type == PT_LOAD && phdr.p_memsz > u64::MAX - phdr.p_vaddr {
            assert(elf@.segments.unwrap()[i as int] == phdr);
            return false;
        }
        i = i + 1;
    }
    true
}

/// The offset at which a kernel would be loaded, or `None` where placing it would exceed the
/// limits of the machine.
fn plan_kernel<S: PageSize>(
    space: &AddressSpace,
    elf: &ElfFile,
    placement: KernelPlacement,
    rng: Option<u64>,
) -> (r: Option<Result<i64, LoadError>>)
    ensures
        r is Some <==> kernel_placeable::<S>(elf@, space@, placement, rng),
        r matches Some(plan) ==> match kernel_plan::<S>(elf@, space@, placement, rng) {
            Ok((load_base, _)) => plan == Ok::<i64, LoadError>(load_base),
            Err(e) => plan == Err::<i64, LoadError>(e),
        },
{
    let base_size: u64 = S::BASE.bytes();
    proof {
        arith::lemma_powers_divide(base_size as int, base_size as int);
    }
    let ghost chosen = kernel_base::<S>(elf@, space@, placement, rng);
    let mut count: usize = space.region_count();
    let load_base: i64 = match elf.header.e_type {
        ET_EXEC => {
            match placement {
                KernelPlacement::Auto => 0,
                KernelPlacement::Fixed(_) => {
                    return Some(Err(LoadError::InvalidPlacement));
                },
            }
        },
        ET_DYN => {
            if !check_ends(elf) {
                return None;
            }
            let (size, align, min_addr): (u64, u64, u64) = match calc_elf_memory_requirements(
                elf,
            ) {
                Ok(needed) => needed,
                Err(e) => {
                    return Some(Err(e));
                },
            };
            if size > u64::MAX - (base_size - 1) {
                return None;
            }
            match placement {
                KernelPlacement::Auto => {
                    if size == 0 || !arith::is_power_of_two(align) {
                        return None;
                    }
                    proof {
                        arith::lemma_ceil_facts(size as int, base_size as int);
                    }
                    let aligned_size: u64 = arith::align_up(size, base_size);
                    let addr: u64 = match space.choose_free(aligned_size, align, rng) {
                        Some(addr) => addr,
                        None => {
                            return Some(Err(LoadError::AddressSpaceFull));
                        },
                    };
                    if count >= MAX_REGIONS {
                        return None;
                    }
                    count = space.count_with(VirtAddr::new(addr), aligned_size);
                    let offset: i128 = arith::to_signed(addr) as i128 - arith::to_signed(
                        min_addr,
                    ) as i128;
                    if offset < i64::MIN as i128 || offset > i64::MAX as i128 {
                        return None;
                    }
                    offset as i64
                },
                KernelPlacement::Fixed(base) => arith::to_signed(base.as_u64()),
            }
        },
        _ => {
            return Some(Err(LoadError::UnsupportedElfType(elf.header.e_type)));
        },
    };
    if !check_ends(elf) {
        return None;
    }
    match calc_elf_memory_requirements(elf) {
        Ok((size, _, min_addr)) => {
            let start: u64 = arith::rebase(min_addr, load_base);
            if start as u128 + size as u128 + (base_size - 1) as u128 > u64::MAX as u128 {
                return None;
            }
            proof {
                arith::lemma_ceil_facts(start + size, base_size as int);
            }
            let aligned_start: u64 = arith::align_down(start, base_size);
            let aligned_end: u64 = arith::align_up(start + size, base_size);
            if aligned_start < aligned_end && count >= MAX_REGIONS {
                return None;
            }
        },
        Err(_) => {},
    }
    Some(Ok(load_base))
}

/// Whether loading a LOAD segment stays inside the limits of the machine and the frames that back
/// it lie in the `len` bytes from `kernel_phys_base` on.
fn check_load_segment<S: PageSize>(
    phdr: &ProgramHeader,
    kernel_phys_base: PhysAddr,
    load_base: i64,
    len: u64,
) -> (r: bool)
    requires
        phdr.p_type == PT_LOAD,
    ensures
        r == (elf_loading::load_in_range::<S>(*phdr, kernel_phys_base, load_base)
            && segment_within::<S>(*phdr, kernel_phys_base, load_base, len as int)),
{
    let base_size: u64 = S::BASE.bytes();
    let ghost b = paging::base::<S>();
    proof {
        arith::lemma_powers_divide(b, b);
    }
    let virt: u64 = arith::rebase(phdr.p_vaddr, load_base);
    if phdr.p_offset > u64::MAX - kernel_phys_base.as_u64() {
        return false;
    }
    let phys: u64 = kernel_phys_base.as_u64() + phdr.p_offset;
    if phdr.p_filesz > 0 {
        if phdr.p_filesz > u64::MAX - virt {
            return false;
        }
        let first: u64 = arith::align_down(virt, base_size);
        let last: u64 = arith::align_down(virt + phdr.p_filesz - 1, base_size);
        proof {
            if last < first {
                arith::lemma_multiples_apart(last as int, first as int, b);
            }
            arith::lemma_ceil_facts(kernel_phys_base.0 + len, b);
        }
        let pages: u128 = (last - first) as u128 + base_size as u128;
        let frames: u64 = arith::align_down(phys, base_size);
        let file_end: u128 = kernel_phys_base.as_u64() as u128 + len as u128;
        let rest: u128 = file_end % base_size as u128;
        proof {
            vstd::arithmetic::div_mod::lemma_mod_decreases(file_end as nat, base_size as nat);
        }
        let end: u128 = if rest == 0 {
            file_end
        } else {
            file_end - rest + base_size as u128
        };
        if pages > u64::MAX as u128 || frames as u128 + pages > 0x1_0000_0000_0000_0000 {
            return false;
        }
        if frames < kernel_phys_base.as_u64() || frames as u128 + pages > end {
            return false;
        }
    }
    if phdr.p_memsz > phdr.p_filesz {
        if phdr.p_memsz > u64::MAX - virt {
            return false;
        }
        if virt as u128 + phdr.p_filesz as u128 + (base_size - 1) as u128 > u64::MAX as u128 {
            return false;
        }
    }
    true
}

/// Whether protecting a RELRO segment stays inside the limits of the machine.
fn check_relro_segment<S: PageSize>(phdr: &ProgramHeader, load_base: i64) -> (r: bool)
    ensures
        r == elf_loading::relro_in_range::<S>(*phdr, load_base),
{
    let base_size: u64 = S::BASE.bytes();
    proof {
        arith::lemma_powers_divide(base_size as int, base_size as int);
    }
    let virt: u64 = arith::rebase(phdr.p_vaddr, load_base);
    if phdr.p_memsz > u64::MAX - virt {
        return false;
    }
    let end: u64 = virt + phdr.p_memsz;
    let last: u64 = arith::align_down(end.saturating_sub(1), base_size);
    last <= u64::MAX - base_size
}

/// Whether loading the segments of a file stays inside the limits of the machine and the frames
/// that back them lie in the `len` bytes from `kernel_phys_base` on.
fn check_segments<S: PageSize>(
    elf: &ElfFile,
    kernel_phys_base: PhysAddr,
    load_base: i64,
    len: u64,
) -> (r: bool)
    ensures
        r == segments_loadable::<S>(elf@, kernel_phys_base, load_base, len as int),
{
    let segments = match &elf.segments {
        Some(segments) => segments,
        None => {
            return true;
        },
    };
    let ghost list = elf@.segments.unwrap();
    let mut i: usize = 0;
    while i < segments.len()
        invariant
            i <= segments.len(),
            list == segments@,
            elf@.segments == Some(list),
            forall|j: int|
                0 <= j < i ==> {
                    &&& elf_loading::segment_in_range::<S>(
                        #[trigger] list[j],
                        kernel_phys_base,
                        load_base,
                    )
                    &&& segment_within::<S>(list[j], kernel_phys_base, load_base, len as int)
                },
        decreases segments.len() - i,
    {
        let phdr = segments[i];
        assert(elf@.segments.unwrap()[i as int] == phdr);
        if phdr.p_type == PT_LOAD {
            if !check_load_segment::<S>(&phdr, kernel_phys_base, load_base, len) {
                return false;
            }
        } else if phdr.p_type == PT_GNU_RELRO {
            if !check_relro_segment::<S>(&phdr, load_base) {
                return false;
            }
        }
        i = i + 1;
    }
    true
}

/// Where the frames that back the segments of a file lie in memory that cannot be handed out, they
/// cannot be handed out.
proof fn lemma_file_reserved<S: PageSize>(
    elf: ElfView,
    kernel_phys_base: PhysAddr,
    load_base: i64,
    len: int,
    available: Set<int>,
)
    requires
        segments_loadable::<S>(elf, kernel_phys_base, load_base, len),
        forall|a: int|
            kernel_phys_base.0 <= a < arith::ceil_to(kernel_phys_base.0 + len, paging::base::<S>())
                ==> !#[trigger] available.contains(a),
    ensures
        elf_loading::elf_in_range::<S>(elf, kernel_phys_base, load_base),
        elf_loading::elf_reserved::<S>(elf, kernel_phys_base, load_base, available),
{
}

impl<
    'a,
    S: PageSize,
    P: PageTable<S>,
    A: FrameAllocator<S>,
    M: PhysicalMemoryAccess,
> Loader<'a, S, P, A, M> {
    /// What the page table, the frame allocator and physical memory hold.
    pub open spec fn state(self) -> Snapshot<S> {
        state::snapshot(*self.page_table, *self.allocator, *self.phys_mem)
    }

    /// The used virtual addresses.
    pub open spec fn regions(self) -> Seq<(u64, u64)> {
        self.address_space@
    }

    /// Create a new loader.
    ///
    /// - `page_table`: The kernel's page table (not the active one).
    /// - `allocator`: Frame allocator for physical memory.
    /// - `phys_mem`: Physical memory access (e.g. identity-mapped).
    pub fn new(page_table: &'a mut P, allocator: &'a mut A, phys_mem: &'a mut M) -> (r: Self)
        ensures
            *r.page_table == *old(page_table),
            *r.allocator == *old(allocator),
            *r.phys_mem == *old(phys_mem),
            *final(r.page_table) == *final(page_table),
            *final(r.allocator) == *final(allocator),
            *final(r.phys_mem) == *final(phys_mem),
            r.regions() == Seq::<(u64, u64)>::empty(),
    {
        Loader {
            page_table,
            allocator,
            phys_mem,
            address_space: AddressSpace::new(),
            page_sizes: PhantomData,
        }
    }

    /// Mark a virtual address range as used (e.g. identity-mapped region).
    pub fn mark_used(&mut self, start: VirtAddr, size: u64)
        requires
            size == 0 || old(self).regions().len() < MAX_REGIONS,
        ensures
            final(self).regions() == address_space::marked(old(self).regions(), start.0, size),
            final(self).state() == old(self).state(),
            *final(final(self).page_table) == *final(old(self).page_table),
            *final(final(self).allocator) == *final(old(self).allocator),
            *final(final(self).phys_mem) == *final(old(self).phys_mem),
    {
        self.address_space.mark_used(start, size);
    }

    /// Load a kernel whose ELF file is parsed already.
    pub fn load_elf(
        &mut self,
        elf: &ElfFile,
        kernel_phys_base: PhysAddr,
        placement: KernelPlacement,
        use_huge_pages: bool,
        rng: Option<u64>,
    ) -> (r: Result<LoadedKernel, LoadError>)
        requires
            old(self).state().sound(Seq::empty()),
            loadable::<S>(
                elf@,
                old(self).regions(),
                old(self).state().available,
                kernel_phys_base,
                placement,
                rng,
            ),
        ensures
            kernel_loaded(
                elf@,
                old(self).state(),
                old(self).regions(),
                kernel_phys_base,
                placement,
                use_huge_pages,
                rng,
                final(self).state(),
                final(self).regions(),
                r,
            ),
            *final(final(self).page_table) == *final(old(self).page_table),
            *final(final(self).allocator) == *final(old(self).allocator),
            *final(final(self).phys_mem) == *final(old(self).phys_mem),
    {
        let load_base: i64 = match place_kernel::<S>(
            &mut self.address_space,
            elf,
            placement,
            rng,
        ) {
            Ok(load_base) => load_base,
            Err(e) => {
                return Err(e);
            },
        };
        let tls_template = match elf_loading::load_and_relocate_elf(
            elf,
            kernel_phys_base,
            load_base,
            use_huge_pages,
            &mut *self.page_table,
            &mut *self.allocator,
            &mut *self.phys_mem,
        ) {
            Ok(tls_template) => tls_template,
            Err(e) => {
                return Err(e);
            },
        };
        let entry_point: u64 = arith::rebase(elf.header.e_entry, load_base);
        Ok(LoadedKernel { entry_point: VirtAddr::new(entry_point), load_base, tls_template })
    }

    /// Load a kernel ELF into the page table.
    ///
    /// `kernel_bytes` is the raw ELF file contents.
    /// `kernel_phys_base` is the physical address of `kernel_bytes[0]`
    /// (must be aligned to `S::BASE.bytes()`).
    ///
    /// If `use_huge_pages` is true, the loader will try the huge page sizes of `S`
    /// for large aligned regions, falling back to `S::BASE` at the edges.
    ///
    /// The page table must not map memory that the allocator can still hand out, and neither
    /// may the allocator hand out the frames behind the segments of the file.
    pub fn load_kernel(
        &mut self,
        kernel_bytes: &[u8],
        kernel_phys_base: PhysAddr,
        placement: KernelPlacement,
        use_huge_pages: bool,
        rng: Option<u64>,
    ) -> (r: Result<LoadedKernel, LoadError>)
        requires
            old(self).state().sound(Seq::empty()),
            kernel_phys_base.0 as int % paging::base::<S>() == 0 ==> (elf_file::parsed(
                kernel_bytes@,
            ) matches Some(elf) ==> loadable::<S>(
                elf,
                old(self).regions(),
                old(self).state().available,
                kernel_phys_base,
                placement,
                rng,
            )),
        ensures
            file_loaded(
                kernel_bytes@,
                old(self).state(),
                old(self).regions(),
                kernel_phys_base,
                placement,
                use_huge_pages,
                rng,
                final(self).state(),
                final(self).regions(),
                r,
            ),
            *final(final(self).page_table) == *final(old(self).page_table),
            *final(final(self).allocator) == *final(old(self).allocator),
            *final(final(self).phys_mem) == *final(old(self).phys_mem),
    {
        let base_size: u64 = S::BASE.bytes();
        proof {
            arith::lemma_powers_divide(base_size as int, base_size as int);
        }
        if !kernel_phys_base.is_aligned(base_size) {
            return Err(LoadError::NotPageAligned);
        }
        match elf_file::parse(kernel_bytes) {
            Some(elf) => self.load_elf(&elf, kernel_phys_base, placement, use_huge_pages, rng),
            None => Err(LoadError::InvalidElf("failed to parse ELF file")),
        }
    }

    /// Load a kernel ELF into the page table if its addresses permit it.
    ///
    /// Like [`Loader::load_kernel`], for a file of which nothing is known yet. Returns `None`,
    /// and does nothing, where the file would exceed the limits of the machine or of the
    /// address space, or where a segment is backed by memory that the allocator might hand out.
    /// `reserved` is the number of bytes from `kernel_phys_base` on that it does not hand out.
    pub fn try_load_kernel(
        &mut self,
        kernel_bytes: &[u8],
        kernel_phys_base: PhysAddr,
        reserved: u64,
        placement: KernelPlacement,
        use_huge_pages: bool,
        rng: Option<u64>,
    ) -> (r: Option<Result<LoadedKernel, LoadError>>)
        requires
            old(self).state().sound(Seq::empty()),
            forall|a: int|
                kernel_phys_base.0 <= a < arith::ceil_to(
                    kernel_phys_base.0 + reserved,
                    paging::base::<S>(),
                ) ==> !#[trigger] old(self).state().available.contains(a),
        ensures
            r is None <==> {
                &&& kernel_phys_base.0 as int % paging::base::<S>() == 0
                &&& elf_file::parsed(kernel_bytes@) matches Some(elf) && !file_loadable::<S>(
                    elf,
                    old(self).regions(),
                    kernel_phys_base,
                    placement,
                    rng,
                    reserved as int,
                )
            },
            match r {
                Some(loaded) => file_loaded(
                    kernel_bytes@,
                    old(self).state(),
                    old(self).regions(),
                    kernel_phys_base,
                    placement,
                    use_huge_pages,
                    rng,
                    final(self).state(),
                    final(self).regions(),
                    loaded,
                ),
                None => {
                    &&& final(self).state() == old(self).state()
                    &&& final(self).regions() == old(self).regions()
                },
            },
            *final(final(self).page_table) == *final(old(self).page_table),
            *final(final(self).allocator) == *final(old(self).allocator),
            *final(final(self).phys_mem) == *final(old(self).phys_mem),
    {
        let base_size: u64 = S::BASE.bytes();
        proof {
            arith::lemma_powers_divide(base_size as int, base_size as int);
        }
        if !kernel_phys_base.is_aligned(base_size) {
            return Some(Err(LoadError::NotPageAligned));
        }
        let elf = match elf_file::parse(kernel_bytes) {
            Some(elf) => elf,
            None => {
                return Some(Err(LoadError::InvalidElf("failed to parse ELF file")));
            },
        };
        let plan = match plan_kernel::<S>(&self.address_space, &elf, placement, rng) {
            Some(plan) => plan,
            None => {
                return None;
            },
        };
        if let Ok(load_base) = plan {
            if !check_segments::<S>(&elf, kernel_phys_base, load_base, reserved) {
                return None;
            }
            proof {
                lemma_file_reserved::<S>(
                    elf@,
                    kernel_phys_base,
                    load_base,
                    reserved as int,
                    self.state().available,
                );
            }
        }
        Some(self.load_kernel(kernel_bytes, kernel_phys_base, placement, use_huge_pages, rng))
    }

    /// Map a contiguous physical region into the kernel's address space.
    ///
    /// Use for: framebuffer, ramdisk, physical memory mapping, etc.
    pub fn map_physical_region(
        &mut self,
        phys_start: PhysAddr,
        size: u64,
        flags: PageFlags,
        placement: RegionPlacement,
        use_huge_pages: bool,
        rng: Option<u64>,
    ) -> (r: Result<VirtAddr, LoadError>)
        requires
            paging::wf_entries(old(self).state().entries),
            size + paging::base::<S>() - 1 <= u64::MAX,
            size > 0 && placed(
                old(self).regions(),
                page_aligned::<S>(size),
                region_alignment::<S>(use_huge_pages),
                placement,
                rng,
            ) is Some ==> {
                &&& old(self).regions().len() < MAX_REGIONS
                &&& phys_start.0 + arith::floor_to(size - 1, paging::base::<S>()) <= u64::MAX
                &&& placement matches RegionPlacement::Fixed(addr) ==> addr.0 + arith::floor_to(
                    size - 1,
                    paging::base::<S>(),
                ) <= u64::MAX
            },
        ensures
            if size == 0 {
                &&& r == Err::<VirtAddr, LoadError>(LoadError::InvalidPlacement)
                &&& final(self).state() == old(self).state()
                &&& final(self).regions() == old(self).regions()
            } else {
                match placed(
                    old(self).regions(),
                    page_aligned::<S>(size),
                    region_alignment::<S>(use_huge_pages),
                    placement,
                    rng,
                ) {
                    None => {
                        &&& r == Err::<VirtAddr, LoadError>(LoadError::AddressSpaceFull)
                        &&& final(self).state() == old(self).state()
                        &&& final(self).regions() == old(self).regions()
                    },
                    Some((virt, regions)) => {
                        &&& region_mapped(
                            old(self).state(),
                            virt,
                            phys_start,
                            size,
                            flags,
                            use_huge_pages,
                            final(self).state(),
                            r,
                        )
                        &&& final(self).regions() == regions
                    },
                }
            },
            *final(final(self).page_table) == *final(old(self).page_table),
            *final(final(self).allocator) == *final(old(self).allocator),
            *final(final(self).phys_mem) == *final(old(self).phys_mem),
    {
        if size == 0 {
            return Err(LoadError::InvalidPlacement);
        }
        let base_size: u64 = S::BASE.bytes();
        let sizes: &'static [S] = S::huge_page_sizes();
        let alignment: u64 = if use_huge_pages && sizes.len() > 0 {
            sizes[0].bytes()
        } else {
            base_size
        };
        proof {
            arith::lemma_powers_divide(base_size as int, base_size as int);
            arith::lemma_ceil_facts(size as int, base_size as int);
            arith::lemma_floor_facts(size - 1, base_size as int);
        }
        // Round up to page boundaries for address space tracking,
        // since page mappings always consume full pages.
        let page_aligned_size: u64 = arith::align_up(size, base_size);
        let virt_start: VirtAddr = match place_region(
            &mut self.address_space,
            page_aligned_size,
            alignment,
            placement,
            rng,
        ) {
            Some(virt_start) => virt_start,
            None => {
                return Err(LoadError::AddressSpaceFull);
            },
        };
        let ghost before = self.state();
        let ghost plan = mapping::page_plan::<S>(
            virt_start.0 as int,
            phys_start.0 as int,
            size as int,
            flags,
            use_huge_pages,
        );
        // Map pages.
        match mapping::map_region(
            virt_start,
            phys_start,
            size,
            flags,
            use_huge_pages,
            &mut *self.page_table,
            &mut *self.allocator,
        ) {
            Ok(_) => Ok(virt_start),
            Err(e) => {
                proof {
                    let after = self.state();
                    let at = choose|at: u64| #[trigger]
                        mapping::refused_at(
                            before.entries,
                            before.refusals,
                            plan,
                            at,
                            after.entries,
                            after.refusals,
                            e,
                        );
                    assert(mapping::refused_at(
                        before.entries,
                        before.refusals,
                        plan,
                        at,
                        after.entries,
                        after.refusals,
                        e,
                    ));
                }
                Err(e)
            },
        }
    }

    /// Allocate fresh zeroed frames and map them.
    ///
    /// Use for: kernel stack, boot info region, etc.
    /// Always uses base page size.
    pub fn allocate_and_map(
        &mut self,
        size: u64,
        flags: PageFlags,
        placement: RegionPlacement,
        rng: Option<u64>,
    ) -> (r: Result<VirtAddr, LoadError>)
        requires
            paging::wf_entries(old(self).state().entries),
            size + paging::base::<S>() - 1 <= u64::MAX,
            placement is Auto ==> size > 0,
            size > 0 && placed(
                old(self).regions(),
                page_aligned::<S>(size),
                S::BASE.size(),
                placement,
                rng,
            ) is Some ==> {
                &&& old(self).regions().len() < MAX_REGIONS
                &&& placement matches RegionPlacement::Fixed(addr) ==> addr.0 + arith::ceil_to(
                    size as int,
                    paging::base::<S>(),
                ) - paging::base::<S>() <= u64::MAX
            },
        ensures
            match placed(
                old(self).regions(),
                page_aligned::<S>(size),
                S::BASE.size(),
                placement,
                rng,
            ) {
                None => {
                    &&& r == Err::<VirtAddr, LoadError>(LoadError::AddressSpaceFull)
                    &&& final(self).state() == old(self).state()
                    &&& final(self).regions() == old(self).regions()
                },
                Some((virt, regions)) => {
                    &&& memory_mapped(
                        old(self).state(),
                        virt,
                        size,
                        flags,
                        final(self).state(),
                        r,
                    )
                    &&& final(self).regions() == regions
                },
            },
            *final(final(self).page_table) == *final(old(self).page_table),
            *final(final(self).allocator) == *final(old(self).allocator),
            *final(final(self).phys_mem) == *final(old(self).phys_mem),
    {
        let base_size: u64 = S::BASE.bytes();
        let ghost b = paging::base::<S>();
        proof {
            arith::lemma_powers_divide(b, b);
            arith::lemma_ceil_facts(size as int, b);
        }
        let aligned_size: u64 = arith::align_up(size, base_size);
        let virt_start: VirtAddr = match place_region(
            &mut self.address_space,
            aligned_size,
            base_size,
            placement,
            rng,
        ) {
            Some(virt_start) => virt_start,
            None => {
                return Err(LoadError::AddressSpaceFull);
            },
        };
        let num_pages: u64 = aligned_size / base_size;
        proof {
            vstd::arithmetic::div_mod::lemma_fundamental_div_mod(aligned_size as int, b);
            assert(num_pages * b == aligned_size && (num_pages - 1) * b == aligned_size - b)
                by (nonlinear_arith)
                requires
                    b * num_pages == aligned_size,
            ;
            if num_pages > 0 && size == 0 {
                assert(b * num_pages > 0) by (nonlinear_arith)
                    requires
                        b > 0,
                        num_pages > 0,
                ;
            }
        }
        match zeroed::map_zeroed_pages(
            virt_start,
            num_pages,
            flags,
            &mut *self.page_table,
            &mut *self.allocator,
            &mut *self.phys_mem,
        ) {
            Ok(done) => {
                assert(done == ());
                Ok(virt_start)
            },
            Err(e) => Err(e),
        }
    }

    /// Create a guard page: reserves one base-page-sized virtual
    /// address range that is deliberately left **unmapped**.
    ///
    /// Any access to this address will trigger a page fault.
    /// Use below a kernel stack to catch stack overflows.
    /// Returns the virtual address of the guard page.
    pub fn add_guard_page(&mut self, placement: RegionPlacement, rng: Option<u64>) -> (r: Result<
        VirtAddr,
        LoadError,
    >)
        requires
            placed(
                old(self).regions(),
                S::BASE.size(),
                S::BASE.size(),
                placement,
                rng,
            ) is Some ==> old(self).regions().len() < MAX_REGIONS,
        ensures
            final(self).state() == old(self).state(),
            match placed(
                old(self).regions(),
                S::BASE.size(),
                S::BASE.size(),
                placement,
                rng,
            ) {
                None => {
                    &&& r == Err::<VirtAddr, LoadError>(LoadError::AddressSpaceFull)
                    &&& final(self).regions() == old(self).regions()
                },
                Some((virt, regions)) => {
                    &&& r == Ok::<VirtAddr, LoadError>(virt)
                    &&& final(self).regions() == regions
                },
            },
            *final(final(self).page_table) == *final(old(self).page_table),
            *final(final(self).allocator) == *final(old(self).allocator),
            *final(final(self).phys_mem) == *final(old(self).phys_mem),
    {
        let base_size: u64 = S::BASE.bytes();
        proof {
            arith::lemma_powers_divide(base_size as int, base_size as int);
        }
        // Deliberately do NOT map this page: that is the point.
        match place_region(&mut self.address_space, base_size, base_size, placement, rng) {
            Some(virt) => Ok(virt),
            None => Err(LoadError::AddressSpaceFull),
        }
    }

    /// Get a reference to the address space tracker.
    pub fn address_space(&self) -> (r: &AddressSpace)
        ensures
            *r == self.address_space,
    {
        &self.address_space
    }

    /// Get a mutable reference to the address space tracker.
    pub fn address_space_mut(&mut self) -> (r: &mut AddressSpace)
        ensures
            *r == old(self).address_space,
            final(self).address_space == *final(r),
            final(self).state() == old(self).state(),
            *final(final(self).page_table) == *final(old(self).page_table),
            *final(final(self).allocator) == *final(old(self).allocator),
            *final(final(self).phys_mem) == *final(old(self).phys_mem),
    {
        &mut self.address_space
    }

    /// Get a mutable reference to the page table.
    ///
    /// Use for platform-specific operations like recursive page table
    /// entries or identity mapping the context switch function.
    pub fn page_table_mut(&mut self) -> (r: &mut P)
        ensures
            *r == *old(self).page_table,
            *final(self).page_table == *final(r),
            *final(self).allocator == *old(self).allocator,
            *final(self).phys_mem == *old(self).phys_mem,
            final(self).address_space == old(self).address_space,
            *final(final(self).page_table) == *final(old(self).page_table),
            *final(final(self).allocator) == *final(old(self).allocator),
            *final(final(self).phys_mem) == *final(old(self).phys_mem),
    {
        &mut *self.page_table
    }

    /// Get a mutable reference to the frame allocator.
    pub fn frame_allocator_mut(&mut self) -> (r: &mut A)
        ensures
            *r == *old(self).allocator,
            *final(self).allocator == *final(r),
            *final(self).page_table == *old(self).page_table,
            *final(self).phys_mem == *old(self).phys_mem,
            final(self).address_space == old(self).address_space,
            *final(final(self).page_table) == *final(old(self).page_table),
            *final(final(self).allocator) == *final(old(self).allocator),
            *final(final(self).phys_mem) == *final(old(self).phys_mem),
    {
        &mut *self.allocator
    }
}

} // verus!
