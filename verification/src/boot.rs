//! Setting up the kernel's address space at boot: the kernel itself, its stack, the
//! framebuffer, the ramdisk and physical memory.

use crate::address_space;
use crate::address_space::{AddressSpace, ADDRESS_LIMIT, MAX_REGIONS};
use crate::arith;
use crate::boot_config;
use crate::boot_config::{
    mapping_to_kernel_placement, mapping_to_placement, BootloaderConfig, Kernel, Mapping,
};
use crate::elf_file;
use crate::error::{LoadError, MapError};
use crate::loader;
use crate::loader::{Loader, RegionPlacement};
use crate::mapping;
use crate::paging;
use crate::paging::PageEntry;
use crate::state;
use crate::state::Snapshot;
use crate::traits;
use crate::traits::{
    FrameAllocator, PageFlags, PageTable, PhysAddr, PhysicalMemoryAccess, Request, VirtAddr,
};
use crate::x86_64;
use crate::x86_bridge;
use crate::x86_bridge::X86PageSize;
use crate::{LoadedKernel, TlsTemplate};
use vstd::prelude::*;

verus! {

/// Size of a base page.
pub const PAGE_SIZE: u64 = 0x1000;

/// The number of bytes that one entry of a level 4 page table covers: 512 GiB.
pub const L4_ENTRY_SIZE: u64 = 0x80_0000_0000;

/// The physical address of the framebuffer and its length.
#[derive(Clone, Copy, Debug, PartialEq, Eq, Structural)]
pub struct RawFrameBufferInfo {
    /// Start address of the pixel-based framebuffer.
    pub addr: PhysAddr,
    /// Length of the framebuffer in bytes.
    pub byte_len: u64,
}

/// Required system information that should be queried from the BIOS or UEFI firmware.
#[derive(Clone, Copy, Debug, PartialEq, Eq, Structural)]
pub struct SystemInfo {
    /// Information about the (still unmapped) framebuffer.
    pub framebuffer: Option<RawFrameBufferInfo>,
    /// Address of the _Root System Description Pointer_ structure of the ACPI standard.
    pub rsdp_addr: Option<PhysAddr>,
    /// Physical address of the ramdisk, if there is one.
    pub ramdisk_addr: Option<u64>,
    /// Length of the ramdisk in bytes.
    pub ramdisk_len: u64,
}

/// The random words of one boot, each for the placement of one region.
#[derive(Clone, Copy, Debug, PartialEq, Eq, Structural)]
pub struct AslrWords {
    /// For the kernel.
    pub kernel: u64,
    /// For the framebuffer.
    pub framebuffer: u64,
    /// For the ramdisk.
    pub ramdisk: u64,
    /// For the mapping of physical memory.
    pub physical_memory: u64,
}

/// What the boot environment adds to the configuration of the kernel.
#[derive(Clone, Copy, Debug, PartialEq, Eq, Structural)]
pub struct BootEnvironment {
    /// The end of physical memory.
    pub max_phys: PhysAddr,
    /// The size of the boot info with its memory map.
    pub boot_info_size: u64,
    /// The physical address of the kernel file.
    pub kernel_start: PhysAddr,
    /// How many bytes from `kernel_start` on the allocator does not hand out. A kernel with a
    /// segment that reaches further is not loaded.
    pub kernel_reserved: u64,
    /// The physical address of the context switch function.
    pub context_switch: PhysAddr,
    /// Random words for the placement of regions.
    pub rng: Option<AslrWords>,
}

/// Contains the addresses of all memory mappings set up by [`set_up_mappings`].
///
/// The entry for the recursive mapping of the page table is chosen when everything else is
/// mapped: see [`RegionMappings::with_recursive_index`].
pub struct RegionMappings {
    /// The entry point address of the kernel.
    pub entry_point: VirtAddr,
    /// The start address of the kernel stack.
    pub stack_bottom: VirtAddr,
    /// The (exclusive) end address of the kernel stack.
    pub stack_top: VirtAddr,
    /// Tracks used virtual address ranges for finding free regions.
    pub address_space: AddressSpace,
    /// The start address of the framebuffer, if any.
    pub framebuffer: Option<VirtAddr>,
    /// The start address of the physical memory mapping, if enabled.
    pub physical_memory_offset: Option<VirtAddr>,
    /// The thread local storage template of the kernel executable, if it contains one.
    pub tls_template: Option<TlsTemplate>,
    /// Start address of the kernel slice allocation in memory.
    pub kernel_slice_start: PhysAddr,
    /// Size of the kernel slice allocation in memory.
    pub kernel_slice_len: u64,
    /// Relocation offset of the kernel image in virtual memory.
    pub kernel_image_offset: VirtAddr,
    /// Physical address of the ramdisk, if there is one.
    pub ramdisk_slice_phys_start: Option<PhysAddr>,
    /// Virtual address of the ramdisk, if there is one.
    pub ramdisk_slice_start: Option<VirtAddr>,
    /// Length of the ramdisk in bytes.
    pub ramdisk_slice_len: u64,
}

/// Contains the addresses of all memory mappings, the recursive one included.
pub struct Mappings {
    /// The entry point address of the kernel.
    pub entry_point: VirtAddr,
    /// The start address of the kernel stack.
    pub stack_bottom: VirtAddr,
    /// The (exclusive) end address of the kernel stack.
    pub stack_top: VirtAddr,
    /// Tracks used virtual address ranges for finding free regions.
    pub address_space: AddressSpace,
    /// The start address of the framebuffer, if any.
    pub framebuffer: Option<VirtAddr>,
    /// The start address of the physical memory mapping, if enabled.
    pub physical_memory_offset: Option<VirtAddr>,
    /// The level 4 page table index of the recursive mapping, if enabled.
    pub recursive_index: Option<u16>,
    /// The thread local storage template of the kernel executable, if it contains one.
    pub tls_template: Option<TlsTemplate>,
    /// Start address of the kernel slice allocation in memory.
    pub kernel_slice_start: PhysAddr,
    /// Size of the kernel slice allocation in memory.
    pub kernel_slice_len: u64,
    /// Relocation offset of the kernel image in virtual memory.
    pub kernel_image_offset: VirtAddr,
    /// Physical address of the ramdisk, if there is one.
    pub ramdisk_slice_phys_start: Option<PhysAddr>,
    /// Virtual address of the ramdisk, if there is one.
    pub ramdisk_slice_start: Option<VirtAddr>,
    /// Length of the ramdisk in bytes.
    pub ramdisk_slice_len: u64,
}

/// Which step of setting up the mappings failed, and why.
#[derive(Debug)]
pub enum SetUpError {
    /// The kernel file exceeds the limits of the machine.
    KernelOutOfRange,
    /// Loading the kernel failed.
    Kernel(LoadError),
    /// There is no free region for the stack.
    NoStackRegion,
    /// Allocating the stack failed.
    Stack(LoadError),
    /// Mapping the framebuffer failed.
    Framebuffer(LoadError),
    /// Mapping the ramdisk failed.
    Ramdisk(LoadError),
    /// Mapping physical memory failed.
    PhysicalMemory(LoadError),
    /// Identity mapping a frame of the context switch function failed.
    ContextSwitch(MapError),
}

/// The end of the addresses at which the bootloader maps physical memory to itself.
///
/// It is rounded up to an L4-entry boundary (512 GiB) because the bootloader
/// identity-maps physical memory using 2MiB pages, which populates L2/L3
/// page table entries. The boot info is mapped into both the kernel and
/// bootloader page tables, so its virtual address must not share any page
/// table entries with the identity mapping.
pub open spec fn identity_map_end(max_phys: PhysAddr) -> u64 {
    arith::ceil_to(max_phys.0 as int, L4_ENTRY_SIZE as int) as u64
}

/// Start and size of the region that a fixed mapping occupies. A dynamic mapping occupies none
/// yet.
pub open spec fn fixed_range(mapping: Mapping, size: u64) -> (u64, u64) {
    match mapping {
        Mapping::FixedAddress(addr) => (addr, size),
        Mapping::Dynamic => (0, 0),
    }
}

/// The ranges that are not free before the kernel is loaded, as start and size: the identity
/// mapping, the framebuffer, everything that the configuration fixes, and what lies outside
/// the range for dynamic mappings.
pub open spec fn reservations(
    config: BootloaderConfig,
    framebuffer: Option<RawFrameBufferInfo>,
    max_phys: PhysAddr,
    boot_info_size: u64,
) -> Seq<(u64, u64)> {
    let none = (0u64, 0u64);
    let mappings = config.mappings;
    seq![
        (0, identity_map_end(max_phys)),
        match framebuffer {
            Some(fb) => (fb.addr.0, fb.byte_len),
            None => none,
        },
        match mappings.physical_memory {
            Some(mapping) => fixed_range(mapping, max_phys.0),
            None => none,
        },
        match mappings.page_table_recursive {
            Some(Mapping::FixedAddress(addr)) => (
                arith::floor_to(addr as int, L4_ENTRY_SIZE as int) as u64,
                L4_ENTRY_SIZE,
            ),
            _ => none,
        },
        fixed_range(mappings.kernel_stack, (config.kernel_stack_size + PAGE_SIZE) as u64),
        fixed_range(mappings.boot_info, boot_info_size),
        match framebuffer {
            Some(fb) => fixed_range(mappings.framebuffer, fb.byte_len),
            None => none,
        },
        match mappings.dynamic_range_start {
            Some(start) => (0, start),
            None => none,
        },
        match mappings.dynamic_range_end {
            Some(end) => if end < ADDRESS_LIMIT {
                (end, (ADDRESS_LIMIT - end) as u64)
            } else {
                none
            },
            None => none,
        },
    ]
}

/// Start and size of the region that a fixed mapping occupies.
fn range_of(mapping: Mapping, size: u64) -> (r: (u64, u64))
    ensures
        r == fixed_range(mapping, size),
{
    match mapping {
        Mapping::FixedAddress(addr) => (addr, size),
        Mapping::Dynamic => (0, 0),
    }
}

/// Mark everything that is not free before the kernel is loaded.
pub fn reserve_ranges(
    space: &mut AddressSpace,
    config: &BootloaderConfig,
    framebuffer: Option<RawFrameBufferInfo>,
    max_phys: PhysAddr,
    boot_info_size: u64,
)
    requires
        address_space::canonical(old(space)@),
        old(space)@.len() + 9 <= MAX_REGIONS,
        max_phys.0 + L4_ENTRY_SIZE - 1 <= u64::MAX,
        config.kernel_stack_size + PAGE_SIZE <= u64::MAX,
    ensures
        final(space)@ == address_space::all_marked(
            old(space)@,
            reservations(*config, framebuffer, max_phys, boot_info_size),
        ),
{
    let none: (u64, u64) = (0, 0);
    let mappings = config.mappings;
    let ranges: [(u64, u64); 9] = [
        // Identity-mapped physical memory.
        (0, arith::align_up(max_phys.as_u64(), L4_ENTRY_SIZE)),
        // Framebuffer physical address range.
        match framebuffer {
            Some(fb) => (fb.addr.as_u64(), fb.byte_len),
            None => none,
        },
        // Fixed-address config ranges.
        match mappings.physical_memory {
            Some(mapping) => range_of(mapping, max_phys.as_u64()),
            None => none,
        },
        match mappings.page_table_recursive {
            // A recursive mapping occupies a full L4 entry (512 GiB).
            Some(Mapping::FixedAddress(addr)) => (
                arith::align_down(addr, L4_ENTRY_SIZE),
                L4_ENTRY_SIZE,
            ),
            _ => none,
        },
        range_of(mappings.kernel_stack, config.kernel_stack_size + PAGE_SIZE),
        range_of(mappings.boot_info, boot_info_size),
        match framebuffer {
            Some(fb) => range_of(mappings.framebuffer, fb.byte_len),
            None => none,
        },
        // Everything before this is unusable for dynamic allocation.
        match mappings.dynamic_range_start {
            Some(start) => (0, start),
            None => none,
        },
        // Everything after this is unusable.
        match mappings.dynamic_range_end {
            Some(end) => if end < ADDRESS_LIMIT {
                (end, ADDRESS_LIMIT - end)
            } else {
                none
            },
            None => none,
        },
    ];
    let ghost list = reservations(*config, framebuffer, max_phys, boot_info_size);
    assert(ranges@ =~= list);
    let ghost before = space@;
    let mut i: usize = 0;
    assert(list.take(0) =~= Seq::empty());
    while i < 9
        invariant
            i <= 9,
            list.len() == 9,
            ranges@ == list,
            address_space::canonical(before),
            before.len() + 9 <= MAX_REGIONS,
            space@ == address_space::all_marked(before, list.take(i as int)),
        decreases 9 - i,
    {
        let (start, size) = ranges[i];
        proof {
            address_space::lemma_all_marked(before, list.take(i as int));
            assert(list.take(i + 1).drop_last() =~= list.take(i as int));
            assert(list.take(i + 1).last() == list[i as int]);
        }
        space.mark_used(VirtAddr::new(start), size);
        i = i + 1;
    }
    assert(list.take(9) =~= list);
}

/// The flags of data that the kernel may write.
pub open spec fn data_flags() -> PageFlags {
    PageFlags { writable: true, executable: false }
}

/// The platform state and the used addresses at one moment of setting up.
pub ghost struct Progress {
    pub state: Snapshot<X86PageSize>,
    pub regions: Seq<(u64, u64)>,
}

/// Where the guard page below the stack goes, and the addresses that are used once it is found.
pub open spec fn stack_place(
    regions: Seq<(u64, u64)>,
    mapping: Mapping,
    stack_size: u64,
) -> Option<(u64, Seq<(u64, u64)>)> {
    let size = (PAGE_SIZE + stack_size) as u64;
    match mapping {
        Mapping::Dynamic => match address_space::free_address(regions, size, PAGE_SIZE, None) {
            Some(addr) => Some((addr as u64, address_space::marked(regions, addr as u64, size))),
            None => None,
        },
        Mapping::FixedAddress(addr) => Some((addr, regions)),
    }
}

/// Setting up the stack: one page is left unmapped as a guard, and zeroed memory follows it.
/// The result is the start of the stack, and its end rounded down for alignment.
#[verifier::opaque]
pub open spec fn stack_step(
    before: Progress,
    mapping: Mapping,
    stack_size: u64,
    after: Progress,
    r: Result<(VirtAddr, VirtAddr), SetUpError>,
) -> bool {
    match stack_place(before.regions, mapping, stack_size) {
        None => {
            &&& r == Err::<(VirtAddr, VirtAddr), SetUpError>(SetUpError::NoStackRegion)
            &&& after == before
        },
        Some((guard, found)) => {
            let bottom = VirtAddr((guard + PAGE_SIZE) as u64);
            let top = VirtAddr(arith::floor_to(bottom.0 + stack_size, 16) as u64);
            &&& after.regions == address_space::marked(
                address_space::marked(found, guard, PAGE_SIZE),
                bottom.0,
                loader::page_aligned::<X86PageSize>(stack_size),
            )
            &&& match r {
                Ok(stack) => {
                    &&& stack == (bottom, top)
                    &&& loader::memory_mapped(
                        before.state,
                        bottom,
                        stack_size,
                        data_flags(),
                        after.state,
                        Ok(bottom),
                    )
                },
                Err(e) => {
                    &&& e matches SetUpError::Stack(error)
                    &&& loader::memory_mapped(
                        before.state,
                        bottom,
                        stack_size,
                        data_flags(),
                        after.state,
                        Err(error),
                    )
                },
            }
        },
    }
}

/// Marking a region adds at most one to the list.
proof fn lemma_marked_room(regions: Seq<(u64, u64)>, start: u64, size: u64)
    requires
        address_space::canonical(regions),
    ensures
        address_space::canonical(address_space::marked(regions, start, size)),
        address_space::marked(regions, start, size).len() <= regions.len() + 1,
{
    address_space::lemma_marked(regions, start, size);
}

/// Setting up the stack keeps the list of used regions canonical, and adds at most three
/// regions.
proof fn lemma_stack_room(regions: Seq<(u64, u64)>, mapping: Mapping, stack_size: u64)
    requires
        address_space::canonical(regions),
    ensures
        stack_place(regions, mapping, stack_size) matches Some((guard, found)) ==> {
            let after = address_space::marked(
                address_space::marked(found, guard, PAGE_SIZE),
                (guard + PAGE_SIZE) as u64,
                loader::page_aligned::<X86PageSize>(stack_size),
            );
            &&& address_space::canonical(after)
            &&& after.len() <= regions.len() + 3
        },
{
    match stack_place(regions, mapping, stack_size) {
        Some((guard, found)) => {
            if mapping is Dynamic {
                lemma_marked_room(regions, guard, (PAGE_SIZE + stack_size) as u64);
            }
            lemma_marked_room(found, guard, PAGE_SIZE);
            lemma_marked_room(
                address_space::marked(found, guard, PAGE_SIZE),
                (guard + PAGE_SIZE) as u64,
                loader::page_aligned::<X86PageSize>(stack_size),
            );
        },
        None => {},
    }
}

/// Create the kernel stack: guard page + stack pages.
///
/// They are contiguous: guard page first, then stack pages.
pub fn map_stack<
    'a,
    P: PageTable<X86PageSize>,
    A: FrameAllocator<X86PageSize>,
    M: PhysicalMemoryAccess,
>(
    loader: &mut Loader<'a, X86PageSize, P, A, M>,
    mapping: Mapping,
    stack_size: u64,
) -> (r: Result<(VirtAddr, VirtAddr), SetUpError>)
    requires
        paging::wf_entries(old(loader).state().entries),
        address_space::canonical(old(loader).regions()),
        old(loader).regions().len() + 3 <= MAX_REGIONS,
        PAGE_SIZE + stack_size <= u64::MAX,
        mapping matches Mapping::FixedAddress(addr) ==> addr + PAGE_SIZE + stack_size <= u64::MAX,
    ensures
        stack_step(
            (Progress { state: old(loader).state(), regions: old(loader).regions() }),
            mapping,
            stack_size,
            (Progress { state: final(loader).state(), regions: final(loader).regions() }),
            r,
        ),
        paging::wf_entries(final(loader).state().entries),
        address_space::canonical(final(loader).regions()),
        final(loader).regions().len() <= old(loader).regions().len() + 3,
        r matches Err(e) ==> e is NoStackRegion || e is Stack,
        *final(final(loader).page_table) == *final(old(loader).page_table),
        *final(final(loader).allocator) == *final(old(loader).allocator),
        *final(final(loader).phys_mem) == *final(old(loader).phys_mem),
{
    reveal(stack_step);
    let ghost before = loader.regions();
    let guard_and_stack_size: u64 = PAGE_SIZE + stack_size;
    proof {
        x86_64::lemma_page_sizes();
        x86_bridge::lemma_base();
        lemma_stack_room(before, mapping, stack_size);
        if mapping is Dynamic {
            address_space::lemma_found_is_free(before, guard_and_stack_size, PAGE_SIZE, None);
        }
    }
    let guard: u64 = match mapping {
        // Find one contiguous region for guard + stack.
        Mapping::Dynamic => match loader.address_space_mut().find_free(
            guard_and_stack_size,
            PAGE_SIZE,
            None,
        ) {
            Some(region_start) => region_start.as_u64(),
            None => {
                return Err(SetUpError::NoStackRegion);
            },
        },
        Mapping::FixedAddress(addr) => addr,
    };
    let ghost found = loader.regions();
    proof {
        if mapping is Dynamic {
            lemma_marked_room(before, guard, guard_and_stack_size);
        }
        lemma_marked_room(found, guard, PAGE_SIZE);
        arith::lemma_ceil_facts(stack_size as int, PAGE_SIZE as int);
    }
    // Add guard page (unmapped) at the start.
    match loader.add_guard_page(RegionPlacement::Fixed(VirtAddr::new(guard)), None) {
        Ok(_) => {},
        Err(e) => {
            return Err(SetUpError::Stack(e));
        },
    }
    // Allocate and map stack pages right after the guard page.
    let bottom = VirtAddr::new(guard + PAGE_SIZE);
    let flags = PageFlags { writable: true, executable: false };
    match loader.allocate_and_map(stack_size, flags, RegionPlacement::Fixed(bottom), None) {
        Ok(_) => {},
        Err(e) => {
            return Err(SetUpError::Stack(e));
        },
    }
    let end = VirtAddr::new(bottom.as_u64() + stack_size);
    Ok((bottom, end.align_down(16)))
}

/// The addresses of a data region are 64-bit numbers.
pub open spec fn data_in_range(phys_start: u64, size: u64, mapping: Mapping) -> bool {
    &&& size + PAGE_SIZE - 1 <= u64::MAX
    &&& size > 0 ==> {
        let last = arith::floor_to(size - 1, PAGE_SIZE as int);
        &&& phys_start + last <= u64::MAX
        &&& mapping matches Mapping::FixedAddress(addr) ==> addr + last <= u64::MAX
    }
}

/// Mapping a physical region as writable data.
pub open spec fn data_step(
    before: Progress,
    phys_start: PhysAddr,
    size: u64,
    mapping: Mapping,
    use_huge_pages: bool,
    rng: Option<u64>,
    after: Progress,
    r: Result<VirtAddr, LoadError>,
) -> bool {
    if size == 0 {
        &&& r == Err::<VirtAddr, LoadError>(LoadError::InvalidPlacement)
        &&& after == before
    } else {
        match loader::placed(
            before.regions,
            loader::page_aligned::<X86PageSize>(size),
            loader::region_alignment::<X86PageSize>(use_huge_pages),
            boot_config::region_placement(mapping),
            rng,
        ) {
            None => {
                &&& r == Err::<VirtAddr, LoadError>(LoadError::AddressSpaceFull)
                &&& after == before
            },
            Some((virt, regions)) => {
                &&& after.regions == regions
                &&& loader::region_mapped(
                    before.state,
                    virt,
                    phys_start,
                    size,
                    data_flags(),
                    use_huge_pages,
                    after.state,
                    r,
                )
            },
        }
    }
}

/// Map a physical region as writable data.
fn map_data<
    'a,
    P: PageTable<X86PageSize>,
    A: FrameAllocator<X86PageSize>,
    M: PhysicalMemoryAccess,
>(
    loader: &mut Loader<'a, X86PageSize, P, A, M>,
    phys_start: PhysAddr,
    size: u64,
    mapping: Mapping,
    use_huge_pages: bool,
    rng: Option<u64>,
) -> (r: Result<VirtAddr, LoadError>)
    requires
        paging::wf_entries(old(loader).state().entries),
        address_space::canonical(old(loader).regions()),
        old(loader).regions().len() < MAX_REGIONS,
        data_in_range(phys_start.0, size, mapping),
    ensures
        data_step(
            (Progress { state: old(loader).state(), regions: old(loader).regions() }),
            phys_start,
            size,
            mapping,
            use_huge_pages,
            rng,
            (Progress { state: final(loader).state(), regions: final(loader).regions() }),
            r,
        ),
        paging::wf_entries(final(loader).state().entries),
        address_space::canonical(final(loader).regions()),
        final(loader).regions().len() <= old(loader).regions().len() + 1,
        *final(final(loader).page_table) == *final(old(loader).page_table),
        *final(final(loader).allocator) == *final(old(loader).allocator),
        *final(final(loader).phys_mem) == *final(old(loader).phys_mem),
{
    let ghost before = loader.regions();
    proof {
        x86_bridge::lemma_base();
    }
    let flags = PageFlags { writable: true, executable: false };
    let r = loader.map_physical_region(
        phys_start,
        size,
        flags,
        mapping_to_placement(mapping),
        use_huge_pages,
        rng,
    );
    proof {
        let aligned = loader::page_aligned::<X86PageSize>(size);
        match loader::placed(
            before,
            aligned,
            loader::region_alignment::<X86PageSize>(use_huge_pages),
            boot_config::region_placement(mapping),
            rng,
        ) {
            Some((virt, regions)) => {
                lemma_marked_room(before, virt.0, aligned);
            },
            None => {},
        }
    }
    r
}

/// Map one frame at its own physical address, so that code in it goes on running after the
/// active page table is switched.
pub fn identity_map<P: PageTable<X86PageSize>, A: FrameAllocator<X86PageSize>>(
    frame: PhysAddr,
    page_table: &mut P,
    allocator: &mut A,
) -> (r: Result<(), MapError>)
    ensures
        match r {
            Ok(_) => {
                &&& frame.0 % PAGE_SIZE == 0
                &&& final(page_table).entries() == identity_mapped(
                    old(page_table).entries(),
                    frame,
                )
                &&& forall|v: int|
                    frame.0 <= v < frame.0 + PAGE_SIZE ==> !#[trigger] paging::mapped(
                        old(page_table).entries(),
                        v,
                    )
                &&& final(page_table).refusals() == old(page_table).refusals()
                &&& final(allocator).refused() == old(allocator).refused()
            },
            Err(e) => {
                &&& final(page_table).entries() == old(page_table).entries()
                &&& final(page_table).refusals() == old(page_table).refusals().push(
                    (identity_request(frame), e),
                )
            },
        },
        final(page_table).unmap_refusals() == old(page_table).unmap_refusals(),
        final(page_table).tables() == old(page_table).tables() + traits::added(
            old(page_table).tables(),
            final(page_table).tables(),
        ),
        final(allocator).granted() == old(allocator).granted() + traits::added(
            old(page_table).tables(),
            final(page_table).tables(),
        ),
        final(allocator).available().subset_of(old(allocator).available()),
{
    let flags = PageFlags { writable: false, executable: true };
    page_table.map(
        VirtAddr::new(frame.as_u64()),
        frame,
        X86PageSize::Size4KiB,
        flags,
        allocator,
    )
}

/// The page that maps a frame at its own physical address.
pub open spec fn identity_entry(frame: PhysAddr) -> PageEntry<X86PageSize> {
    PageEntry {
        phys: frame.0,
        flags: PageFlags { writable: false, executable: true },
        size: X86PageSize::Size4KiB,
    }
}

/// The request to map a frame at its own physical address.
pub open spec fn identity_request(frame: PhysAddr) -> Request<X86PageSize> {
    Request::MapPage { virt: frame.0, entry: identity_entry(frame) }
}

/// The page table once one frame is mapped at its own physical address.
pub open spec fn identity_mapped(
    entries: Map<u64, PageEntry<X86PageSize>>,
    frame: PhysAddr,
) -> Map<u64, PageEntry<X86PageSize>> {
    entries.insert(frame.0, identity_entry(frame))
}

/// Mapping a region that there may be none of.
#[verifier::opaque]
pub open spec fn optional_step(
    before: Progress,
    region: Option<(PhysAddr, u64)>,
    mapping: Mapping,
    use_huge_pages: bool,
    rng: Option<u64>,
    after: Progress,
    r: Result<Option<VirtAddr>, LoadError>,
) -> bool {
    match region {
        None => r == Ok::<Option<VirtAddr>, LoadError>(None) && after == before,
        Some((phys_start, size)) => match r {
            Ok(Some(virt)) => data_step(
                before,
                phys_start,
                size,
                mapping,
                use_huge_pages,
                rng,
                after,
                Ok(virt),
            ),
            Ok(None) => false,
            Err(e) => data_step(
                before,
                phys_start,
                size,
                mapping,
                use_huge_pages,
                rng,
                after,
                Err(e),
            ),
        },
    }
}

/// Map a region as writable data if there is one.
pub fn map_optional<
    'a,
    P: PageTable<X86PageSize>,
    A: FrameAllocator<X86PageSize>,
    M: PhysicalMemoryAccess,
>(
    loader: &mut Loader<'a, X86PageSize, P, A, M>,
    region: Option<(PhysAddr, u64)>,
    mapping: Mapping,
    use_huge_pages: bool,
    rng: Option<u64>,
) -> (r: Result<Option<VirtAddr>, LoadError>)
    requires
        paging::wf_entries(old(loader).state().entries),
        address_space::canonical(old(loader).regions()),
        old(loader).regions().len() < MAX_REGIONS,
        region matches Some((phys_start, size)) ==> data_in_range(phys_start.0, size, mapping),
    ensures
        optional_step(
            (Progress { state: old(loader).state(), regions: old(loader).regions() }),
            region,
            mapping,
            use_huge_pages,
            rng,
            (Progress { state: final(loader).state(), regions: final(loader).regions() }),
            r,
        ),
        paging::wf_entries(final(loader).state().entries),
        address_space::canonical(final(loader).regions()),
        final(loader).regions().len() <= old(loader).regions().len() + 1,
        *final(final(loader).page_table) == *final(old(loader).page_table),
        *final(final(loader).allocator) == *final(old(loader).allocator),
        *final(final(loader).phys_mem) == *final(old(loader).phys_mem),
{
    reveal(optional_step);
    match region {
        Some((phys_start, size)) => match map_data(
            loader,
            phys_start,
            size,
            mapping,
            use_huge_pages,
            rng,
        ) {
            Ok(virt) => Ok(Some(virt)),
            Err(e) => Err(e),
        },
        None => Ok(None),
    }
}

/// Loading the kernel. The result is `None` where the file exceeds the limits of the machine.
#[verifier::opaque]
pub open spec fn kernel_step(
    before: Progress,
    bytes: Seq<u8>,
    kernel_start: PhysAddr,
    reserved: u64,
    mapping: Mapping,
    rng: Option<u64>,
    after: Progress,
    r: Option<Result<LoadedKernel, LoadError>>,
) -> bool {
    let placement = boot_config::kernel_placement(mapping);
    &&& r is None <==> {
        &&& kernel_start.0 as int % paging::base::<X86PageSize>() == 0
        &&& elf_file::parsed(bytes) matches Some(elf) && !loader::file_loadable::<X86PageSize>(
            elf,
            before.regions,
            kernel_start,
            placement,
            rng,
            reserved as int,
        )
    }
    &&& match r {
        // No huge pages for kernel segments.
        Some(loaded) => loader::file_loaded(
            bytes,
            before.state,
            before.regions,
            kernel_start,
            placement,
            false,
            rng,
            after.state,
            after.regions,
            loaded,
        ),
        None => after == before,
    }
}

/// Load the kernel if its file permits it.
fn load_step<
    'a,
    P: PageTable<X86PageSize>,
    A: FrameAllocator<X86PageSize>,
    M: PhysicalMemoryAccess,
>(
    loader: &mut Loader<'a, X86PageSize, P, A, M>,
    bytes: &[u8],
    kernel_start: PhysAddr,
    reserved: u64,
    mapping: Mapping,
    rng: Option<u64>,
) -> (r: Option<Result<LoadedKernel, LoadError>>)
    requires
        old(loader).state().sound(Seq::empty()),
        address_space::canonical(old(loader).regions()),
        forall|a: int|
            kernel_start.0 <= a < arith::ceil_to(
                kernel_start.0 + reserved,
                paging::base::<X86PageSize>(),
            ) ==> !#[trigger] old(loader).state().available.contains(a),
    ensures
        kernel_step(
            (Progress { state: old(loader).state(), regions: old(loader).regions() }),
            bytes@,
            kernel_start,
            reserved,
            mapping,
            rng,
            (Progress { state: final(loader).state(), regions: final(loader).regions() }),
            r,
        ),
        r matches Some(Ok(_)) ==> paging::wf_entries(final(loader).state().entries),
        address_space::canonical(final(loader).regions()),
        final(loader).regions().len() <= old(loader).regions().len() + 2,
        *final(final(loader).page_table) == *final(old(loader).page_table),
        *final(final(loader).allocator) == *final(old(loader).allocator),
        *final(final(loader).phys_mem) == *final(old(loader).phys_mem),
{
    reveal(kernel_step);
    proof {
        match elf_file::parsed(bytes@) {
            Some(elf) => {
                loader::lemma_kernel_plan::<X86PageSize>(
                    elf,
                    loader.regions(),
                    boot_config::kernel_placement(mapping),
                    rng,
                );
            },
            None => {},
        }
    }
    // No huge pages for kernel segments.
    loader.try_load_kernel(
        bytes,
        kernel_start,
        reserved,
        mapping_to_kernel_placement(mapping),
        false,
        rng,
    )
}

/// Mapping the two frames of the context switch function at their own addresses.
#[verifier::opaque]
pub open spec fn context_step(
    before: Snapshot<X86PageSize>,
    context_switch: PhysAddr,
    after: Snapshot<X86PageSize>,
    r: Result<(), MapError>,
) -> bool {
    let first = PhysAddr(arith::floor_to(context_switch.0 as int, PAGE_SIZE as int) as u64);
    let second = PhysAddr((first.0 + PAGE_SIZE) as u64);
    let with_first = identity_mapped(before.entries, first);
    &&& after.memory == before.memory
    &&& after.available.subset_of(before.available)
    &&& before.only_tables(after)
    &&& after.unmap_refusals == before.unmap_refusals
    &&& match r {
        Ok(_) => {
            &&& before.quiet(after)
            &&& after.entries == identity_mapped(with_first, second)
            &&& forall|v: int|
                first.0 <= v < first.0 + PAGE_SIZE ==> !#[trigger] paging::mapped(
                    before.entries,
                    v,
                )
            &&& forall|v: int|
                second.0 <= v < second.0 + PAGE_SIZE ==> !#[trigger] paging::mapped(
                    with_first,
                    v,
                )
        },
        Err(e) => {
            ||| {
                &&& after.refusals == before.refusals.push((identity_request(first), e))
                &&& after.entries == before.entries
            }
            ||| {
                &&& after.refusals == before.refusals.push((identity_request(second), e))
                &&& after.entries == with_first
            }
        },
    }
}

/// Identity-map context switch function, so that we don't get an immediate pagefault
/// after switching the active page table.
pub fn map_context_switch<
    P: PageTable<X86PageSize>,
    A: FrameAllocator<X86PageSize>,
    M: PhysicalMemoryAccess,
>(
    context_switch: PhysAddr,
    page_table: &mut P,
    allocator: &mut A,
    phys_mem: &M,
) -> (r: Result<(), MapError>)
    requires
        arith::floor_to(context_switch.0 as int, PAGE_SIZE as int) + PAGE_SIZE <= u64::MAX,
    ensures
        context_step(
            state::snapshot(*old(page_table), *old(allocator), *phys_mem),
            context_switch,
            state::snapshot(*final(page_table), *final(allocator), *phys_mem),
            r,
        ),
{
    reveal(context_step);
    let ghost before = page_table.tables();
    let ghost granted = allocator.granted();
    let first = context_switch.align_down(PAGE_SIZE);
    match identity_map(first, page_table, allocator) {
        Ok(_) => {},
        Err(e) => {
            return Err(e);
        },
    }
    let ghost now = page_table.tables();
    let second = PhysAddr::new(first.as_u64() + PAGE_SIZE);
    let mapped = identity_map(second, page_table, allocator);
    proof {
        traits::lemma_added_chain(before, now, page_table.tables(), granted);
    }
    mapped
}

/// The states and results on the way through [`set_up_mappings`].
pub ghost struct SetUpRun {
    pub kernel: LoadedKernel,
    pub loaded: Progress,
    pub stack: (VirtAddr, VirtAddr),
    pub stacked: Progress,
    pub framebuffer: Option<VirtAddr>,
    pub framed: Progress,
    pub ramdisk: Option<VirtAddr>,
    pub with_ramdisk: Progress,
    pub physical_memory: Option<VirtAddr>,
    pub with_memory: Progress,
}

/// The random words of a boot, if the kernel asks for random addresses.
pub open spec fn words_for(config: BootloaderConfig, env: BootEnvironment) -> Option<AslrWords> {
    if config.mappings.aslr {
        env.rng
    } else {
        None
    }
}

/// The word for the kernel.
pub open spec fn kernel_word(words: Option<AslrWords>) -> Option<u64> {
    match words {
        Some(words) => Some(words.kernel),
        None => None,
    }
}

/// The word for the framebuffer.
pub open spec fn framebuffer_word(words: Option<AslrWords>) -> Option<u64> {
    match words {
        Some(words) => Some(words.framebuffer),
        None => None,
    }
}

/// The word for the ramdisk.
pub open spec fn ramdisk_word(words: Option<AslrWords>) -> Option<u64> {
    match words {
        Some(words) => Some(words.ramdisk),
        None => None,
    }
}

/// The word for the mapping of physical memory.
pub open spec fn memory_word(words: Option<AslrWords>) -> Option<u64> {
    match words {
        Some(words) => Some(words.physical_memory),
        None => None,
    }
}

/// The physical region of the framebuffer.
pub open spec fn framebuffer_region(info: SystemInfo) -> Option<(PhysAddr, u64)> {
    match info.framebuffer {
        Some(fb) => Some((fb.addr, fb.byte_len)),
        None => None,
    }
}

/// The physical region of the ramdisk.
pub open spec fn ramdisk_region(info: SystemInfo) -> Option<(PhysAddr, u64)> {
    match info.ramdisk_addr {
        Some(addr) => Some((PhysAddr(addr), info.ramdisk_len)),
        None => None,
    }
}

/// All of physical memory, if the configuration asks for its mapping.
pub open spec fn memory_region(config: BootloaderConfig, env: BootEnvironment) -> Option<
    (PhysAddr, u64),
> {
    match config.mappings.physical_memory {
        Some(_) => Some((PhysAddr(0), env.max_phys.0)),
        None => None,
    }
}

/// The mapping of physical memory, where the configuration asks for one.
pub open spec fn memory_mapping(config: BootloaderConfig) -> Mapping {
    match config.mappings.physical_memory {
        Some(mapping) => mapping,
        None => Mapping::Dynamic,
    }
}

/// Where setting up starts: nothing is mapped by it yet, and the reserved ranges are used.
pub open spec fn set_up_start(
    config: BootloaderConfig,
    info: SystemInfo,
    env: BootEnvironment,
    before: Snapshot<X86PageSize>,
) -> Progress {
    Progress {
        state: before,
        regions: address_space::all_marked(
            Seq::empty(),
            reservations(config, info.framebuffer, env.max_phys, env.boot_info_size),
        ),
    }
}

/// The kernel is loaded.
pub open spec fn kernel_done(
    config: BootloaderConfig,
    bytes: Seq<u8>,
    info: SystemInfo,
    env: BootEnvironment,
    before: Snapshot<X86PageSize>,
    run: SetUpRun,
) -> bool {
    kernel_step(
        set_up_start(config, info, env, before),
        bytes,
        env.kernel_start,
        env.kernel_reserved,
        config.mappings.kernel_base,
        kernel_word(words_for(config, env)),
        run.loaded,
        Some(Ok(run.kernel)),
    )
}

/// The kernel is loaded and its stack is set up.
pub open spec fn stack_done(
    config: BootloaderConfig,
    bytes: Seq<u8>,
    info: SystemInfo,
    env: BootEnvironment,
    before: Snapshot<X86PageSize>,
    run: SetUpRun,
) -> bool {
    &&& kernel_done(config, bytes, info, env, before, run)
    &&& stack_step(
        run.loaded,
        config.mappings.kernel_stack,
        config.kernel_stack_size,
        run.stacked,
        Ok(run.stack),
    )
}

/// The framebuffer is mapped too.
pub open spec fn framebuffer_done(
    config: BootloaderConfig,
    bytes: Seq<u8>,
    info: SystemInfo,
    env: BootEnvironment,
    before: Snapshot<X86PageSize>,
    run: SetUpRun,
) -> bool {
    &&& stack_done(config, bytes, info, env, before, run)
    &&& optional_step(
        run.stacked,
        framebuffer_region(info),
        config.mappings.framebuffer,
        false,
        framebuffer_word(words_for(config, env)),
        run.framed,
        Ok(run.framebuffer),
    )
}

/// The ramdisk is mapped too.
pub open spec fn ramdisk_done(
    config: BootloaderConfig,
    bytes: Seq<u8>,
    info: SystemInfo,
    env: BootEnvironment,
    before: Snapshot<X86PageSize>,
    run: SetUpRun,
) -> bool {
    &&& framebuffer_done(config, bytes, info, env, before, run)
    &&& optional_step(
        run.framed,
        ramdisk_region(info),
        config.mappings.ramdisk_memory,
        false,
        ramdisk_word(words_for(config, env)),
        run.with_ramdisk,
        Ok(run.ramdisk),
    )
}

/// Physical memory is mapped too, with huge pages.
pub open spec fn memory_done(
    config: BootloaderConfig,
    bytes: Seq<u8>,
    info: SystemInfo,
    env: BootEnvironment,
    before: Snapshot<X86PageSize>,
    run: SetUpRun,
) -> bool {
    &&& ramdisk_done(config, bytes, info, env, before, run)
    &&& optional_step(
        run.with_ramdisk,
        memory_region(config, env),
        memory_mapping(config),
        true,
        memory_word(words_for(config, env)),
        run.with_memory,
        Ok(run.physical_memory),
    )
}

/// The addresses that setting up reports.
pub open spec fn mappings_of(
    bytes: Seq<u8>,
    info: SystemInfo,
    env: BootEnvironment,
    run: SetUpRun,
    mappings: RegionMappings,
) -> bool {
    &&& mappings.entry_point == run.kernel.entry_point
    &&& mappings.stack_bottom == run.stack.0
    &&& mappings.stack_top == run.stack.1
    &&& mappings.address_space@ == run.with_memory.regions
    &&& mappings.framebuffer == run.framebuffer
    &&& mappings.physical_memory_offset == run.physical_memory
    &&& mappings.tls_template == run.kernel.tls_template
    &&& mappings.kernel_slice_start == env.kernel_start
    &&& mappings.kernel_slice_len == bytes.len()
    &&& mappings.kernel_image_offset == VirtAddr(arith::rebased(0, run.kernel.load_base))
    &&& mappings.ramdisk_slice_phys_start == match info.ramdisk_addr {
        Some(addr) => Some(PhysAddr(addr)),
        None => None,
    }
    &&& mappings.ramdisk_slice_start == run.ramdisk
    &&& mappings.ramdisk_slice_len == info.ramdisk_len
}

/// How setting up went: each step works on what the step before left, and the first one that
/// fails ends it.
pub open spec fn set_up(
    config: BootloaderConfig,
    bytes: Seq<u8>,
    info: SystemInfo,
    env: BootEnvironment,
    before: Snapshot<X86PageSize>,
    run: SetUpRun,
    after: Snapshot<X86PageSize>,
    r: Result<RegionMappings, SetUpError>,
) -> bool {
    match r {
        Ok(mappings) => {
            &&& memory_done(config, bytes, info, env, before, run)
            &&& context_step(run.with_memory.state, env.context_switch, after, Ok(()))
            &&& mappings_of(bytes, info, env, run, mappings)
        },
        Err(SetUpError::ContextSwitch(e)) => {
            &&& memory_done(config, bytes, info, env, before, run)
            &&& context_step(run.with_memory.state, env.context_switch, after, Err(e))
        },
        Err(SetUpError::PhysicalMemory(e)) => {
            &&& ramdisk_done(config, bytes, info, env, before, run)
            &&& optional_step(
                run.with_ramdisk,
                memory_region(config, env),
                memory_mapping(config),
                true,
                memory_word(words_for(config, env)),
                run.with_memory,
                Err(e),
            )
            &&& after == run.with_memory.state
        },
        Err(SetUpError::Ramdisk(e)) => {
            &&& framebuffer_done(config, bytes, info, env, before, run)
            &&& optional_step(
                run.framed,
                ramdisk_region(info),
                config.mappings.ramdisk_memory,
                false,
                ramdisk_word(words_for(config, env)),
                run.with_ramdisk,
                Err(e),
            )
            &&& after == run.with_ramdisk.state
        },
        Err(SetUpError::Framebuffer(e)) => {
            &&& stack_done(config, bytes, info, env, before, run)
            &&& optional_step(
                run.stacked,
                framebuffer_region(info),
                config.mappings.framebuffer,
                false,
                framebuffer_word(words_for(config, env)),
                run.framed,
                Err(e),
            )
            &&& after == run.framed.state
        },
        Err(SetUpError::Kernel(e)) => {
            &&& kernel_step(
                set_up_start(config, info, env, before),
                bytes,
                env.kernel_start,
                env.kernel_reserved,
                config.mappings.kernel_base,
                kernel_word(words_for(config, env)),
                run.loaded,
                Some(Err(e)),
            )
            &&& after == run.loaded.state
        },
        Err(SetUpError::KernelOutOfRange) => {
            &&& kernel_step(
                set_up_start(config, info, env, before),
                bytes,
                env.kernel_start,
                env.kernel_reserved,
                config.mappings.kernel_base,
                kernel_word(words_for(config, env)),
                run.loaded,
                None,
            )
            &&& after == run.loaded.state
        },
        Err(e) => {
            &&& kernel_done(config, bytes, info, env, before, run)
            &&& stack_step(
                run.loaded,
                config.mappings.kernel_stack,
                config.kernel_stack_size,
                run.stacked,
                Err(e),
            )
            &&& after == run.stacked.state
        },
    }
}

/// The numbers that setting up computes from the configuration are 64-bit numbers.
pub open spec fn set_up_in_range(
    config: BootloaderConfig,
    info: SystemInfo,
    env: BootEnvironment,
) -> bool {
    let mappings = config.mappings;
    &&& env.max_phys.0 + L4_ENTRY_SIZE - 1 <= u64::MAX
    &&& config.kernel_stack_size + PAGE_SIZE <= u64::MAX
    &&& mappings.kernel_stack matches Mapping::FixedAddress(addr) ==> addr + PAGE_SIZE
        + config.kernel_stack_size <= u64::MAX
    &&& info.framebuffer matches Some(fb) ==> data_in_range(
        fb.addr.0,
        fb.byte_len,
        mappings.framebuffer,
    )
    &&& info.ramdisk_addr matches Some(addr) ==> data_in_range(
        addr,
        info.ramdisk_len,
        mappings.ramdisk_memory,
    )
    &&& mappings.physical_memory matches Some(mapping) ==> data_in_range(
        0,
        env.max_phys.0,
        mapping,
    )
    &&& arith::floor_to(env.context_switch.0 as int, PAGE_SIZE as int) + PAGE_SIZE <= u64::MAX
}

/// Whether the addresses of a data region are 64-bit numbers.
fn data_fits(phys_start: u64, size: u64, mapping: Mapping) -> (r: bool)
    ensures
        r == data_in_range(phys_start, size, mapping),
{
    if size > u64::MAX - (PAGE_SIZE - 1) {
        return false;
    }
    if size == 0 {
        return true;
    }
    let last: u64 = arith::align_down(size - 1, PAGE_SIZE);
    if phys_start > u64::MAX - last {
        return false;
    }
    match mapping {
        Mapping::FixedAddress(addr) => addr <= u64::MAX - last,
        Mapping::Dynamic => true,
    }
}

/// Whether the numbers that setting up computes from the configuration are 64-bit numbers.
pub fn set_up_fits(config: &BootloaderConfig, info: &SystemInfo, env: &BootEnvironment) -> (r:
    bool)
    ensures
        r == set_up_in_range(*config, *info, *env),
{
    let mappings = config.mappings;
    if env.max_phys.as_u64() > u64::MAX - (L4_ENTRY_SIZE - 1) {
        return false;
    }
    if config.kernel_stack_size > u64::MAX - PAGE_SIZE {
        return false;
    }
    if let Mapping::FixedAddress(addr) = mappings.kernel_stack {
        if addr > u64::MAX - PAGE_SIZE - config.kernel_stack_size {
            return false;
        }
    }
    if let Some(fb) = info.framebuffer {
        if !data_fits(fb.addr.as_u64(), fb.byte_len, mappings.framebuffer) {
            return false;
        }
    }
    if let Some(addr) = info.ramdisk_addr {
        if !data_fits(addr, info.ramdisk_len, mappings.ramdisk_memory) {
            return false;
        }
    }
    if let Some(mapping) = mappings.physical_memory {
        if !data_fits(0, env.max_phys.as_u64(), mapping) {
            return false;
        }
    }
    env.context_switch.align_down(PAGE_SIZE).as_u64() <= u64::MAX - PAGE_SIZE
}

/// Sets up mappings for the kernel, kernel stack, framebuffer, ramdisk, and physical memory,
/// and for the context switch function.
///
/// The page table must not map memory that the allocator can still hand out, and the allocator
/// must not hand out the memory that is reserved for the kernel file.
pub fn set_up_mappings<
    P: PageTable<X86PageSize>,
    A: FrameAllocator<X86PageSize>,
    M: PhysicalMemoryAccess,
>(
    kernel: &Kernel,
    info: &SystemInfo,
    env: &BootEnvironment,
    page_table: &mut P,
    allocator: &mut A,
    phys_mem: &mut M,
) -> (r: Result<RegionMappings, SetUpError>)
    requires
        state::snapshot(*old(page_table), *old(allocator), *old(phys_mem)).sound(Seq::empty()),
        set_up_in_range(kernel.config, *info, *env),
        forall|a: int|
            env.kernel_start.0 <= a < arith::ceil_to(
                env.kernel_start.0 + env.kernel_reserved,
                paging::base::<X86PageSize>(),
            ) ==> !#[trigger] old(allocator).available().contains(a),
    ensures
        exists|run: SetUpRun| #[trigger]
            set_up(
                kernel.config,
                kernel.elf_bytes@,
                *info,
                *env,
                state::snapshot(*old(page_table), *old(allocator), *old(phys_mem)),
                run,
                state::snapshot(*final(page_table), *final(allocator), *final(phys_mem)),
                r,
            ),
{
    let config = kernel.config;
    let ghost before = state::snapshot(*page_table, *allocator, *phys_mem);
    let ghost bytes = kernel.elf_bytes@;
    let ghost nowhere = Progress { state: before, regions: Seq::empty() };
    let ghost mut run = SetUpRun {
        kernel: arbitrary(),
        loaded: nowhere,
        stack: arbitrary(),
        stacked: nowhere,
        framebuffer: None,
        framed: nowhere,
        ramdisk: None,
        with_ramdisk: nowhere,
        physical_memory: None,
        with_memory: nowhere,
    };
    let words: Option<AslrWords> = if config.mappings.aslr {
        env.rng
    } else {
        None
    };
    let (kernel_rng, framebuffer_rng, ramdisk_rng, memory_rng): (
        Option<u64>,
        Option<u64>,
        Option<u64>,
        Option<u64>,
    ) = match words {
        Some(w) => (Some(w.kernel), Some(w.framebuffer), Some(w.ramdisk), Some(w.physical_memory)),
        None => (None, None, None, None),
    };
    let mut loader: Loader<X86PageSize, P, A, M> = Loader::new(page_table, allocator, phys_mem);
    reserve_ranges(
        &mut loader.address_space,
        &config,
        info.framebuffer,
        env.max_phys,
        env.boot_info_size,
    );
    proof {
        let list = reservations(config, info.framebuffer, env.max_phys, env.boot_info_size);
        address_space::lemma_all_marked(Seq::empty(), list);
    }
    // Load the kernel ELF.
    let loaded = load_step(
        &mut loader,
        kernel.elf_bytes,
        env.kernel_start,
        env.kernel_reserved,
        config.mappings.kernel_base,
        kernel_rng,
    );
    proof {
        run = SetUpRun {
            loaded: Progress { state: loader.state(), regions: loader.regions() },
            ..run
        };
    }
    let loaded_kernel = match loaded {
        Some(Ok(loaded_kernel)) => loaded_kernel,
        Some(Err(e)) => {
            let r = Err(SetUpError::Kernel(e));
            assert(set_up(config, bytes, *info, *env, before, run, run.loaded.state, r));
            return r;
        },
        None => {
            let r = Err(SetUpError::KernelOutOfRange);
            assert(set_up(config, bytes, *info, *env, before, run, run.loaded.state, r));
            return r;
        },
    };
    proof {
        run = SetUpRun { kernel: loaded_kernel, ..run };
        assert(kernel_done(config, bytes, *info, *env, before, run));
    }
    // Create kernel stack: guard page + stack pages.
    let stacked = map_stack(&mut loader, config.mappings.kernel_stack, config.kernel_stack_size);
    proof {
        run = SetUpRun {
            stacked: Progress { state: loader.state(), regions: loader.regions() },
            ..run
        };
    }
    let (stack_bottom, stack_top): (VirtAddr, VirtAddr) = match stacked {
        Ok(stack) => stack,
        Err(e) => {
            let r = Err(e);
            assert(set_up(config, bytes, *info, *env, before, run, run.stacked.state, r));
            return r;
        },
    };
    proof {
        run = SetUpRun { stack: (stack_bottom, stack_top), ..run };
        assert(stack_done(config, bytes, *info, *env, before, run));
    }
    // Map framebuffer.
    let framebuffer_region = match info.framebuffer {
        Some(fb) => Some((fb.addr, fb.byte_len)),
        None => None,
    };
    let framed = map_optional(
        &mut loader,
        framebuffer_region,
        config.mappings.framebuffer,
        false,
        framebuffer_rng,
    );
    proof {
        run = SetUpRun {
            framed: Progress { state: loader.state(), regions: loader.regions() },
            ..run
        };
    }
    let framebuffer: Option<VirtAddr> = match framed {
        Ok(framebuffer) => framebuffer,
        Err(e) => {
            let r = Err(SetUpError::Framebuffer(e));
            assert(set_up(config, bytes, *info, *env, before, run, run.framed.state, r));
            return r;
        },
    };
    proof {
        run = SetUpRun { framebuffer, ..run };
        assert(framebuffer_done(config, bytes, *info, *env, before, run));
    }
    // Map ramdisk.
    let ramdisk_slice_phys_start = match info.ramdisk_addr {
        Some(addr) => Some(PhysAddr::new(addr)),
        None => None,
    };
    let ramdisk_region = match ramdisk_slice_phys_start {
        Some(addr) => Some((addr, info.ramdisk_len)),
        None => None,
    };
    let with_ramdisk = map_optional(
        &mut loader,
        ramdisk_region,
        config.mappings.ramdisk_memory,
        false,
        ramdisk_rng,
    );
    proof {
        run = SetUpRun {
            with_ramdisk: Progress { state: loader.state(), regions: loader.regions() },
            ..run
        };
    }
    let ramdisk: Option<VirtAddr> = match with_ramdisk {
        Ok(ramdisk) => ramdisk,
        Err(e) => {
            let r = Err(SetUpError::Ramdisk(e));
            assert(set_up(config, bytes, *info, *env, before, run, run.with_ramdisk.state, r));
            return r;
        },
    };
    proof {
        run = SetUpRun { ramdisk, ..run };
        assert(ramdisk_done(config, bytes, *info, *env, before, run));
    }
    // Map physical memory, with huge pages.
    let (memory_region, memory_mapping): (Option<(PhysAddr, u64)>, Mapping) =
        match config.mappings.physical_memory {
        Some(mapping) => (Some((PhysAddr::new(0), env.max_phys.as_u64())), mapping),
        None => (None, Mapping::Dynamic),
    };
    let with_memory = map_optional(&mut loader, memory_region, memory_mapping, true, memory_rng);
    proof {
        run = SetUpRun {
            with_memory: Progress { state: loader.state(), regions: loader.regions() },
            ..run
        };
    }
    let physical_memory_offset: Option<VirtAddr> = match with_memory {
        Ok(offset) => offset,
        Err(e) => {
            let r = Err(SetUpError::PhysicalMemory(e));
            assert(set_up(config, bytes, *info, *env, before, run, run.with_memory.state, r));
            return r;
        },
    };
    proof {
        run = SetUpRun { physical_memory: physical_memory_offset, ..run };
        assert(memory_done(config, bytes, *info, *env, before, run));
    }
    let address_space = loader.address_space;
    let context = map_context_switch(env.context_switch, page_table, allocator, phys_mem);
    let ghost after = state::snapshot(*page_table, *allocator, *phys_mem);
    match context {
        Ok(done) => {
            assert(done == ());
        },
        Err(e) => {
            let r = Err(SetUpError::ContextSwitch(e));
            assert(set_up(config, bytes, *info, *env, before, run, after, r));
            return r;
        },
    }
    let mappings = RegionMappings {
        entry_point: loaded_kernel.entry_point,
        stack_bottom,
        stack_top,
        address_space,
        framebuffer,
        physical_memory_offset,
        tls_template: loaded_kernel.tls_template,
        kernel_slice_start: env.kernel_start,
        kernel_slice_len: kernel.elf_bytes.len() as u64,
        kernel_image_offset: VirtAddr::new(arith::rebase(0, loaded_kernel.load_base)),
        ramdisk_slice_phys_start,
        ramdisk_slice_start: ramdisk,
        ramdisk_slice_len: info.ramdisk_len,
    };
    let r = Ok(mappings);
    assert(set_up(config, bytes, *info, *env, before, run, after, r));
    r
}

/// The address of a mapped region: the one that is asked for, if it is fixed.
proof fn lemma_step_address(
    before: Progress,
    region: Option<(PhysAddr, u64)>,
    mapping: Mapping,
    use_huge_pages: bool,
    rng: Option<u64>,
    after: Progress,
    addr: Option<VirtAddr>,
)
    requires
        optional_step(before, region, mapping, use_huge_pages, rng, after, Ok(addr)),
    ensures
        addr is Some <==> region is Some,
        addr is Some && mapping is FixedAddress ==> addr.unwrap().0 == mapping->FixedAddress_0,
{
    reveal(optional_step);
}

/// What is reported is what was asked for: there is an address for the framebuffer, for the
/// ramdisk and for physical memory if and only if the system or the configuration has them, and a
/// fixed address is the one that is reported.
pub proof fn lemma_reported_mappings(
    config: BootloaderConfig,
    bytes: Seq<u8>,
    info: SystemInfo,
    env: BootEnvironment,
    before: Snapshot<X86PageSize>,
    run: SetUpRun,
    after: Snapshot<X86PageSize>,
    mappings: RegionMappings,
)
    requires
        set_up(config, bytes, info, env, before, run, after, Ok(mappings)),
    ensures
        mappings.framebuffer is Some <==> info.framebuffer is Some,
        mappings.ramdisk_slice_start is Some <==> info.ramdisk_addr is Some,
        mappings.physical_memory_offset is Some <==> config.mappings.physical_memory is Some,
        mappings.framebuffer is Some ==> (config.mappings.framebuffer matches Mapping::FixedAddress(
            addr,
        ) ==> mappings.framebuffer == Some(VirtAddr(addr))),
        mappings.ramdisk_slice_start is Some ==> (
        config.mappings.ramdisk_memory matches Mapping::FixedAddress(addr)
            ==> mappings.ramdisk_slice_start == Some(VirtAddr(addr))),
        config.mappings.physical_memory matches Some(Mapping::FixedAddress(addr))
            ==> mappings.physical_memory_offset == Some(VirtAddr(addr)),
{
    let words = words_for(config, env);
    lemma_step_address(
        run.stacked,
        framebuffer_region(info),
        config.mappings.framebuffer,
        false,
        framebuffer_word(words),
        run.framed,
        run.framebuffer,
    );
    lemma_step_address(
        run.framed,
        ramdisk_region(info),
        config.mappings.ramdisk_memory,
        false,
        ramdisk_word(words),
        run.with_ramdisk,
        run.ramdisk,
    );
    lemma_step_address(
        run.with_ramdisk,
        memory_region(config, env),
        memory_mapping(config),
        true,
        memory_word(words),
        run.with_memory,
        run.physical_memory,
    );
}

/// Setting up the stack maps nothing below it: an access to the guard page faults as long as
/// nothing else was mapped there. The stack itself is zeroed, writable and not executable.
pub proof fn lemma_guard_page(
    before: Progress,
    mapping: Mapping,
    stack_size: u64,
    after: Progress,
    stack: (VirtAddr, VirtAddr),
)
    requires
        stack_step(before, mapping, stack_size, after, Ok(stack)),
        paging::unshared(before.state.entries, before.state.available),
        PAGE_SIZE <= stack.0.0,
    ensures
        forall|v: int|
            v < stack.0.0 ==> #[trigger] after.state.vm().contains_key(v)
                == before.state.vm().contains_key(v),
        forall|v: int|
            stack.0.0 <= v < stack.0.0 + stack_size ==> {
                &&& #[trigger] after.state.vm().contains_key(v)
                &&& after.state.vm()[v].byte == 0
                &&& after.state.vm()[v].flags == data_flags()
            },
{
    reveal(stack_step);
    x86_bridge::lemma_base();
    arith::lemma_ceil_facts(stack_size as int, PAGE_SIZE as int);
    let end = stack.0.0 + arith::ceil_to(stack_size as int, PAGE_SIZE as int);
    let cells = paging::zero_cells::<X86PageSize>(stack.0.0 as int, end, data_flags());
    assert(after.state.vm() == before.state.vm().union_prefer_right(cells));
    assert forall|v: int| stack.0.0 <= v < stack.0.0 + stack_size implies
        #[trigger] after.state.vm().contains_key(v) && after.state.vm()[v].byte == 0
        && after.state.vm()[v].flags == data_flags() by {
        assert(cells.contains_key(v));
    }
}

/// The address is reserved but not mapped.
pub open spec fn reserved_at(now: Progress, v: int) -> bool {
    address_space::used(now.regions).contains(v) && !paging::mapped(now.state.entries, v)
}

/// A page is reserved but not mapped.
pub open spec fn kept_free(now: Progress, page: u64) -> bool {
    &&& address_space::canonical(now.regions)
    &&& forall|v: int| page <= v < page + PAGE_SIZE ==> #[trigger] reserved_at(now, v)
}

/// The page sizes of x86_64 are valid.
proof fn lemma_valid_sizes()
    ensures
        mapping::valid_sizes::<X86PageSize>(),
{
    x86_64::lemma_page_sizes();
    x86_bridge::lemma_base();
}

/// Mapping a region at an address of the loader's choice leaves a page alone that is reserved.
proof fn lemma_data_step_spares(
    before: Progress,
    phys_start: PhysAddr,
    size: u64,
    use_huge_pages: bool,
    rng: Option<u64>,
    after: Progress,
    virt: VirtAddr,
    page: u64,
)
    requires
        data_in_range(phys_start.0, size, Mapping::Dynamic),
        data_step(
            before,
            phys_start,
            size,
            Mapping::Dynamic,
            use_huge_pages,
            rng,
            after,
            Ok(virt),
        ),
        kept_free(before, page),
    ensures
        kept_free(after, page),
{
    lemma_valid_sizes();
    x86_64::lemma_page_sizes();
    x86_bridge::lemma_base();
    arith::lemma_ceil_facts(size as int, PAGE_SIZE as int);
    let aligned = loader::page_aligned::<X86PageSize>(size);
    let alignment = loader::region_alignment::<X86PageSize>(use_huge_pages);
    address_space::lemma_found_is_free(before.regions, aligned, alignment, rng);
    address_space::lemma_marked(before.regions, virt.0, aligned);
    let plan = mapping::page_plan::<X86PageSize>(
        virt.0 as int,
        phys_start.0 as int,
        size as int,
        data_flags(),
        use_huge_pages,
    );
    arith::lemma_floor_facts(size - 1, PAGE_SIZE as int);
    let last = arith::floor_to(size - 1, PAGE_SIZE as int);
    arith::lemma_multiples_add(phys_start.0 as int, last, PAGE_SIZE as int);
    arith::lemma_aligned_block_fits((phys_start.0 + last) as u64, PAGE_SIZE);
    vstd::arithmetic::div_mod::lemma_mod_self_0(PAGE_SIZE as int);
    arith::lemma_multiples_add(last, PAGE_SIZE as int, PAGE_SIZE as int);
    arith::lemma_multiples_apart(aligned as int, last + PAGE_SIZE, PAGE_SIZE as int);
    mapping::lemma_plan::<X86PageSize>(
        virt.0 as int,
        phys_start.0 as int,
        size as int,
        data_flags(),
        use_huge_pages,
    );
    assert(after.regions == address_space::marked(before.regions, virt.0, aligned));
    assert forall|v: int| page <= v < page + PAGE_SIZE implies #[trigger] reserved_at(
        after,
        v,
    ) by {
        assert(reserved_at(before, v));
        if paging::mapped(after.state.entries, v) {
            let k = paging::page_at(after.state.entries, v);
            assert(paging::covers(after.state.entries, k, v));
            if plan.contains_key(k) {
                assert(paging::covers(plan, k, v));
                assert(paging::mapped(plan, v));
            } else {
                assert(paging::covers(before.state.entries, k, v));
            }
        }
    }
}

/// Setting up the remaining regions at addresses of the loader's choice leaves the guard page
/// below the stack unmapped: in the end, an access to it still faults.
pub proof fn lemma_guard_page_stays_unmapped(
    config: BootloaderConfig,
    bytes: Seq<u8>,
    info: SystemInfo,
    env: BootEnvironment,
    before: Snapshot<X86PageSize>,
    run: SetUpRun,
    after: Snapshot<X86PageSize>,
    mappings: RegionMappings,
    guard: u64,
)
    requires
        set_up(config, bytes, info, env, before, run, after, Ok(mappings)),
        set_up_in_range(config, info, env),
        config.mappings.framebuffer is Dynamic,
        config.mappings.ramdisk_memory is Dynamic,
        memory_mapping(config) is Dynamic,
        address_space::canonical(run.loaded.regions),
        paging::unshared(run.loaded.state.entries, run.loaded.state.available),
        guard + PAGE_SIZE == mappings.stack_bottom.0,
        forall|v: int|
            guard <= v < guard + PAGE_SIZE ==> !#[trigger] paging::mapped(
                run.loaded.state.entries,
                v,
            ),
        ({
            let first = arith::floor_to(env.context_switch.0 as int, PAGE_SIZE as int);
            first + 2 * PAGE_SIZE <= guard || guard + PAGE_SIZE <= first
        }),
    ensures
        forall|v: int|
            guard <= v < guard + PAGE_SIZE ==> !#[trigger] paging::mapped(after.entries, v),
{
    let stack_size = config.kernel_stack_size;
    reveal(optional_step);
    reveal(context_step);
    x86_bridge::lemma_base();
    assert(kept_free(run.stacked, guard)) by {
        reveal(stack_step);
        lemma_stack_room(run.loaded.regions, config.mappings.kernel_stack, stack_size);
        let (place, found) = stack_place(
            run.loaded.regions,
            config.mappings.kernel_stack,
            stack_size,
        ).unwrap();
        if config.mappings.kernel_stack is Dynamic {
            x86_64::lemma_page_sizes();
            lemma_marked_room(run.loaded.regions, place, (PAGE_SIZE + stack_size) as u64);
            address_space::lemma_found_is_free(
                run.loaded.regions,
                (PAGE_SIZE + stack_size) as u64,
                PAGE_SIZE,
                None,
            );
        }
        assert(place == guard);
        let guarded = address_space::marked(found, guard, PAGE_SIZE);
        address_space::lemma_marked(found, guard, PAGE_SIZE);
        address_space::lemma_marked(
            guarded,
            mappings.stack_bottom.0,
            loader::page_aligned::<X86PageSize>(stack_size),
        );
        lemma_guard_page(
            run.loaded,
            config.mappings.kernel_stack,
            stack_size,
            run.stacked,
            run.stack,
        );
        assert forall|v: int| guard <= v < guard + PAGE_SIZE implies #[trigger] reserved_at(
            run.stacked,
            v,
        ) by {
            assert(address_space::used(guarded).contains(v));
            assert(run.stacked.state.vm().contains_key(v) == run.loaded.state.vm().contains_key(
                v,
            ));
            assert(!paging::mapped(run.loaded.state.entries, v));
        }
    }
    if let Some((phys_start, size)) = framebuffer_region(info) {
        lemma_data_step_spares(
            run.stacked,
            phys_start,
            size,
            false,
            framebuffer_word(words_for(config, env)),
            run.framed,
            run.framebuffer.unwrap(),
            guard,
        );
    }
    if let Some((phys_start, size)) = ramdisk_region(info) {
        lemma_data_step_spares(
            run.framed,
            phys_start,
            size,
            false,
            ramdisk_word(words_for(config, env)),
            run.with_ramdisk,
            run.ramdisk.unwrap(),
            guard,
        );
    }
    if let Some((phys_start, size)) = memory_region(config, env) {
        lemma_data_step_spares(
            run.with_ramdisk,
            phys_start,
            size,
            true,
            memory_word(words_for(config, env)),
            run.with_memory,
            run.physical_memory.unwrap(),
            guard,
        );
    }
    assert(kept_free(run.with_memory, guard));
    assert forall|v: int| guard <= v < guard + PAGE_SIZE implies !#[trigger] paging::mapped(
        after.entries,
        v,
    ) by {
        assert(reserved_at(run.with_memory, v));
        if paging::mapped(after.entries, v) {
            let k = paging::page_at(after.entries, v);
            assert(paging::covers(after.entries, k, v));
            assert(paging::covers(run.with_memory.state.entries, k, v));
        }
    }
}

/// No range of the list, given as start and size, holds the address.
pub open spec fn outside(ranges: Seq<(u64, u64)>, v: int) -> bool {
    forall|i: int|
        0 <= i < ranges.len() ==> !((#[trigger] ranges[i]).0 <= v < ranges[i].0 + ranges[i].1)
}

/// A region that is placed dynamically avoids every reserved range: the identity mapping, the
/// framebuffer, all fixed mappings, and what lies outside the range for dynamic mappings.
pub proof fn lemma_reserved_is_avoided(
    config: BootloaderConfig,
    framebuffer: Option<RawFrameBufferInfo>,
    max_phys: PhysAddr,
    boot_info_size: u64,
    size: u64,
    alignment: u64,
    rng: Option<u64>,
)
    requires
        size > 0,
        vstd::arithmetic::power2::is_pow2(alignment as int),
    ensures
        ({
            let ranges = reservations(config, framebuffer, max_phys, boot_info_size);
            let regions = address_space::all_marked(Seq::empty(), ranges);
            address_space::free_address(regions, size, alignment, rng) matches Some(addr)
                ==> forall|v: int| addr <= v < addr + size ==> #[trigger] outside(ranges, v)
        }),
{
    let ranges = reservations(config, framebuffer, max_phys, boot_info_size);
    let regions = address_space::all_marked(Seq::empty(), ranges);
    address_space::lemma_all_marked(Seq::empty(), ranges);
    address_space::lemma_found_is_free(regions, size, alignment, rng);
    if let Some(addr) = address_space::free_address(regions, size, alignment, rng) {
        assert forall|v: int| addr <= v < addr + size implies #[trigger] outside(ranges, v) by {
            assert(!address_space::used(regions).contains(v));
        }
    }
}

} // verus!
