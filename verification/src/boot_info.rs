//! The boot info that the kernel starts with, and the recursive mapping of its page table.

use crate::address_space;
use crate::address_space::{AddressSpace, MAX_REGIONS};
use crate::arith;
use crate::boot;
use crate::boot::{Mappings, RegionMappings, SystemInfo, L4_ENTRY_SIZE, PAGE_SIZE};
use crate::boot_config::{BootloaderConfig, Mapping};
use crate::error::MapError;
use crate::paging;
use crate::paging::PageEntry;
use crate::traits::{FrameAllocator, PageFlags, PageTable, PhysAddr, Request, VirtAddr};
use crate::x86_64;
use crate::x86_bridge::X86PageSize;
use crate::TlsTemplate;
use vstd::prelude::*;

verus! {

/// The number of entries of a level 4 page table.
pub const L4_ENTRIES: usize = 512;

/// Why the page table cannot be mapped recursively.
#[derive(Clone, Copy, Debug, PartialEq, Eq, Structural)]
pub enum RecursiveError {
    /// Every level 4 entry is in use.
    NoFreeEntry,
    /// The fixed address is no valid virtual address.
    NotCanonical,
    /// The fixed address is not a multiple of the size of a level 4 entry.
    NotAligned,
    /// The level 4 entry of the fixed address is in use.
    AlreadyInUse(u16),
}

/// A 64-bit word is a virtual address if its upper 17 bits are equal.
pub open spec fn is_virtual(addr: u64) -> bool {
    addr < 0x8000_0000_0000 || addr >= 0xFFFF_8000_0000_0000
}

/// The level 4 entry that covers an address.
pub open spec fn l4_index(addr: u64) -> int {
    addr as int / L4_ENTRY_SIZE as int % L4_ENTRIES as int
}

/// The first entry from `next` on that is not in use.
pub open spec fn first_unused(used: Seq<bool>, next: int) -> Option<int>
    decreases used.len() - next,
{
    if next < 0 || used.len() <= next {
        None
    } else if !used[next] {
        Some(next)
    } else {
        first_unused(used, next + 1)
    }
}

/// The level 4 entry for the recursive mapping, or why there is none.
pub open spec fn recursive_entry(mapping: Mapping, used: Seq<bool>) -> Result<u16, RecursiveError> {
    match mapping {
        Mapping::Dynamic => match first_unused(used, 0) {
            Some(index) => Ok(index as u16),
            None => Err(RecursiveError::NoFreeEntry),
        },
        Mapping::FixedAddress(offset) => if !is_virtual(offset) {
            Err(RecursiveError::NotCanonical)
        } else if offset as int % L4_ENTRY_SIZE as int != 0 {
            Err(RecursiveError::NotAligned)
        } else if used[l4_index(offset)] {
            Err(RecursiveError::AlreadyInUse(l4_index(offset) as u16))
        } else {
            Ok(l4_index(offset) as u16)
        },
    }
}

/// Choose the level 4 entry for the recursive mapping. `used` tells which entries are in use.
pub fn recursive_index(mapping: Mapping, used: &[bool; L4_ENTRIES]) -> (r: Result<
    u16,
    RecursiveError,
>)
    ensures
        r == recursive_entry(mapping, used@),
        r matches Ok(index) ==> index < L4_ENTRIES && !used@[index as int],
{
    match mapping {
        Mapping::Dynamic => {
            let mut i: usize = 0;
            while i < L4_ENTRIES
                invariant
                    i <= L4_ENTRIES,
                    used@.len() == L4_ENTRIES,
                    mapping is Dynamic,
                    first_unused(used@, 0) == first_unused(used@, i as int),
                decreases L4_ENTRIES - i,
            {
                if !used[i] {
                    return Ok(i as u16);
                }
                i = i + 1;
            }
            Err(RecursiveError::NoFreeEntry)
        },
        Mapping::FixedAddress(offset) => {
            if offset >= 0x8000_0000_0000 && offset < 0xFFFF_8000_0000_0000 {
                return Err(RecursiveError::NotCanonical);
            }
            if offset % L4_ENTRY_SIZE != 0 {
                return Err(RecursiveError::NotAligned);
            }
            let index: u64 = offset / L4_ENTRY_SIZE % (L4_ENTRIES as u64);
            if used[index as usize] {
                return Err(RecursiveError::AlreadyInUse(index as u16));
            }
            Ok(index as u16)
        },
    }
}

/// The first address that an entry of the level 4 table covers. The upper half of the entries
/// covers the upper end of the address space.
pub open spec fn entry_start(index: int) -> int {
    if index < 256 {
        index * 0x80_0000_0000
    } else {
        0xFFFF_0000_0000_0000 + index * 0x80_0000_0000
    }
}

/// The first entry that is not in use is the lowest.
proof fn lemma_first_unused(used: Seq<bool>, next: int)
    requires
        0 <= next <= used.len(),
    ensures
        match first_unused(used, next) {
            Some(index) => {
                &&& next <= index < used.len()
                &&& !used[index]
                &&& forall|j: int| next <= j < index ==> #[trigger] used[j]
            },
            None => forall|j: int| next <= j < used.len() ==> #[trigger] used[j],
        },
    decreases used.len() - next,
{
    if next < used.len() && used[next] {
        lemma_first_unused(used, next + 1);
    }
}

/// The recursive mapping gets an entry that is not in use: the lowest of them, or the one that
/// starts at the fixed address. It gets none where all are in use, or where no entry starts at the
/// fixed address, or that entry is in use.
pub proof fn lemma_recursive_entry(mapping: Mapping, used: Seq<bool>)
    requires
        used.len() == 512,
    ensures
        match recursive_entry(mapping, used) {
            Ok(index) => {
                &&& index < 512
                &&& !used[index as int]
                &&& match mapping {
                    Mapping::Dynamic => forall|j: int| 0 <= j < index ==> #[trigger] used[j],
                    Mapping::FixedAddress(addr) => addr == entry_start(index as int),
                }
            },
            Err(RecursiveError::NoFreeEntry) => mapping is Dynamic && forall|j: int|
                0 <= j < 512 ==> #[trigger] used[j],
            Err(RecursiveError::NotCanonical) => mapping matches Mapping::FixedAddress(addr)
                && 0x8000_0000_0000 <= addr < 0xFFFF_8000_0000_0000,
            Err(RecursiveError::NotAligned) => mapping matches Mapping::FixedAddress(addr) && !(
            0x8000_0000_0000 <= addr < 0xFFFF_8000_0000_0000) && addr % 0x80_0000_0000 != 0,
            Err(RecursiveError::AlreadyInUse(index)) => mapping matches Mapping::FixedAddress(addr)
                && index < 512 && addr == entry_start(index as int) && used[index as int],
        },
{
    match mapping {
        Mapping::Dynamic => {
            lemma_first_unused(used, 0);
        },
        Mapping::FixedAddress(addr) => {
            let q = addr as int / 0x80_0000_0000;
            vstd::arithmetic::div_mod::lemma_fundamental_div_mod(addr as int, 0x80_0000_0000);
            vstd::arithmetic::div_mod::lemma_fundamental_div_mod(q, 512);
            if addr < 0x8000_0000_0000 {
                vstd::arithmetic::div_mod::lemma_small_mod(q as nat, 512);
            } else if addr >= 0xFFFF_8000_0000_0000 {
                vstd::arithmetic::div_mod::lemma_fundamental_div_mod_converse(
                    q,
                    512,
                    0xFFFF,
                    q - 512 * 0xFFFF,
                );
            }
        },
    }
}

/// The recursive mapping that a configuration asks for: none, or the entry that is chosen for it.
pub open spec fn recursive_choice(config: BootloaderConfig, used: Seq<bool>) -> Result<
    Option<u16>,
    RecursiveError,
> {
    match config.mappings.page_table_recursive {
        None => Ok(None),
        Some(mapping) => match recursive_entry(mapping, used) {
            Ok(index) => Ok(Some(index)),
            Err(e) => Err(e),
        },
    }
}

/// The mappings of all regions together with the entry of the recursive mapping.
pub open spec fn all_mappings(
    regions: RegionMappings,
    recursive_index: Option<u16>,
    mappings: Mappings,
) -> bool {
    &&& mappings.recursive_index == recursive_index
    &&& mappings.entry_point == regions.entry_point
    &&& mappings.stack_bottom == regions.stack_bottom
    &&& mappings.stack_top == regions.stack_top
    &&& mappings.address_space@ == regions.address_space@
    &&& mappings.framebuffer == regions.framebuffer
    &&& mappings.physical_memory_offset == regions.physical_memory_offset
    &&& mappings.tls_template == regions.tls_template
    &&& mappings.kernel_slice_start == regions.kernel_slice_start
    &&& mappings.kernel_slice_len == regions.kernel_slice_len
    &&& mappings.kernel_image_offset == regions.kernel_image_offset
    &&& mappings.ramdisk_slice_phys_start == regions.ramdisk_slice_phys_start
    &&& mappings.ramdisk_slice_start == regions.ramdisk_slice_start
    &&& mappings.ramdisk_slice_len == regions.ramdisk_slice_len
}

impl RegionMappings {
    /// Choose the level 4 entry for the recursive mapping of the page table, if the configuration
    /// asks for one. `used` tells which entries of the kernel's level 4 table are in use now that
    /// all regions are mapped.
    pub fn with_recursive_index(
        self,
        config: &BootloaderConfig,
        used: &[bool; L4_ENTRIES],
    ) -> (r: Result<Mappings, RecursiveError>)
        ensures
            match recursive_choice(*config, used@) {
                Ok(index) => r matches Ok(mappings) && all_mappings(self, index, mappings),
                Err(e) => r matches Err(error) && error == e,
            },
    {
        let recursive_index: Option<u16> = match config.mappings.page_table_recursive {
            Some(mapping) => match recursive_index(mapping, used) {
                Ok(index) => Some(index),
                Err(e) => {
                    return Err(e);
                },
            },
            None => None,
        };
        Ok(
            Mappings {
                entry_point: self.entry_point,
                stack_bottom: self.stack_bottom,
                stack_top: self.stack_top,
                address_space: self.address_space,
                framebuffer: self.framebuffer,
                physical_memory_offset: self.physical_memory_offset,
                recursive_index,
                tls_template: self.tls_template,
                kernel_slice_start: self.kernel_slice_start,
                kernel_slice_len: self.kernel_slice_len,
                kernel_image_offset: self.kernel_image_offset,
                ramdisk_slice_phys_start: self.ramdisk_slice_phys_start,
                ramdisk_slice_start: self.ramdisk_slice_start,
                ramdisk_slice_len: self.ramdisk_slice_len,
            },
        )
    }
}

/// Why the boot info cannot be set up.
#[derive(Clone, Copy, Debug, PartialEq, Eq, Structural)]
pub enum BootInfoError {
    /// The fixed address is not aligned.
    NotAligned,
    /// There is no free virtual address space.
    NoSpace,
    /// There is no frame left.
    FrameAllocationFailed,
    /// A page could not be mapped for the kernel.
    KernelMapping(MapError),
    /// A page could not be mapped for the bootloader.
    BootloaderMapping(MapError),
}

/// Where the boot info goes and which addresses are used then, or why it has no place.
pub open spec fn boot_info_place(
    regions: Seq<(u64, u64)>,
    mapping: Mapping,
    size: u64,
    alignment: u64,
) -> Result<(VirtAddr, Seq<(u64, u64)>), BootInfoError> {
    match mapping {
        Mapping::FixedAddress(addr) => if addr as int % alignment as int == 0 {
            Ok((VirtAddr(addr), regions))
        } else {
            Err(BootInfoError::NotAligned)
        },
        Mapping::Dynamic => match address_space::free_address(regions, size, alignment, None) {
            Some(addr) => Ok(
                (VirtAddr(addr as u64), address_space::marked(regions, addr as u64, size)),
            ),
            None => Err(BootInfoError::NoSpace),
        },
    }
}

/// Choose a place for the boot info. A fixed place is reserved already.
pub fn place_boot_info(
    space: &mut AddressSpace,
    mapping: Mapping,
    size: u64,
    alignment: u64,
) -> (r: Result<VirtAddr, BootInfoError>)
    requires
        size > 0,
        vstd::arithmetic::power2::is_pow2(alignment as int),
        mapping is Dynamic && address_space::free_address(
            old(space)@,
            size,
            alignment,
            None,
        ) is Some ==> old(space)@.len() < MAX_REGIONS,
    ensures
        match boot_info_place(old(space)@, mapping, size, alignment) {
            Ok((addr, regions)) => {
                &&& r == Ok::<VirtAddr, BootInfoError>(addr)
                &&& final(space)@ == regions
            },
            Err(e) => {
                &&& r == Err::<VirtAddr, BootInfoError>(e)
                &&& final(space)@ == old(space)@
            },
        },
{
    match mapping {
        Mapping::FixedAddress(addr) => {
            proof {
                arith::lemma_powers_divide(alignment as int, alignment as int);
            }
            // No ASLR for boot info.
            if addr % alignment == 0 {
                Ok(VirtAddr::new(addr))
            } else {
                Err(BootInfoError::NotAligned)
            }
        },
        Mapping::Dynamic => match space.find_free(size, alignment, None) {
            Some(addr) => Ok(addr),
            None => Err(BootInfoError::NoSpace),
        },
    }
}

/// Where the boot info goes: to the fixed address, if it is aligned, which is reserved already, or
/// to the lowest free place, whose addresses are used from then on. It gets no place where none is
/// free.
pub proof fn lemma_boot_info_is_placed(
    regions: Seq<(u64, u64)>,
    mapping: Mapping,
    size: u64,
    alignment: u64,
)
    requires
        address_space::canonical(regions),
        regions.len() > 0,
        size > 0,
        vstd::arithmetic::power2::is_pow2(alignment as int),
    ensures
        match mapping {
            Mapping::FixedAddress(addr) => if addr as int % (alignment as int) == 0 {
                boot_info_place(regions, mapping, size, alignment) == Ok::<
                    (VirtAddr, Seq<(u64, u64)>),
                    BootInfoError,
                >((VirtAddr(addr), regions))
            } else {
                boot_info_place(regions, mapping, size, alignment) == Err::<
                    (VirtAddr, Seq<(u64, u64)>),
                    BootInfoError,
                >(BootInfoError::NotAligned)
            },
            Mapping::Dynamic => match boot_info_place(regions, mapping, size, alignment) {
                Ok((virt, after)) => {
                    &&& address_space::is_lowest_place(regions, size, alignment, virt.0 as int)
                    &&& forall|v: int| #[trigger]
                        address_space::used(after).contains(v) <==> address_space::used(
                            regions,
                        ).contains(v) || (virt.0 <= v < virt.0 + size && v < u64::MAX)
                },
                Err(e) => {
                    &&& e is NoSpace
                    &&& forall|p: int|
                        !#[trigger] address_space::is_place(regions, size, alignment, p)
                },
            },
        },
{
    if mapping is Dynamic {
        address_space::lemma_search_fails_without_place(regions, size, alignment, None);
        if let Some(addr) = address_space::free_address(regions, size, alignment, None) {
            let some = choose|p: int| #[trigger]
                address_space::is_place(regions, size, alignment, p);
            address_space::lemma_random_choice_goes_round(regions, size, alignment, 0, some);
            address_space::lemma_found_is_free(regions, size, alignment, None);
            address_space::lemma_marked(regions, addr as u64, size);
        }
    }
}

/// A place that is found for the boot info shares no level 4 entry with the identity mapping of
/// physical memory, so that it can be mapped for the bootloader too.
pub proof fn lemma_boot_info_has_its_own_entry(
    regions: Seq<(u64, u64)>,
    max_phys: PhysAddr,
    size: u64,
    alignment: u64,
    addr: VirtAddr,
    phys: int,
)
    requires
        address_space::canonical(regions),
        max_phys.0 + L4_ENTRY_SIZE - 1 <= u64::MAX,
        forall|v: int|
            0 <= v < boot::identity_map_end(max_phys) ==> #[trigger] address_space::used(
                regions,
            ).contains(v),
        size > 0,
        vstd::arithmetic::power2::is_pow2(alignment as int),
        boot_info_place(regions, Mapping::Dynamic, size, alignment) matches Ok((place, _)) && place
            == addr,
        0 <= phys < max_phys.0,
    ensures
        phys / L4_ENTRY_SIZE as int != addr.0 as int / L4_ENTRY_SIZE as int,
{
    let end = boot::identity_map_end(max_phys);
    arith::lemma_ceil_facts(max_phys.0 as int, L4_ENTRY_SIZE as int);
    address_space::lemma_found_is_free(regions, size, alignment, None);
    assert(!address_space::used(regions).contains(addr.0 as int));
    assert(addr.0 >= end);
}

/// Between the two states of a page table the pages from `lo` to `hi` were added, and no other
/// entry changed.
pub open spec fn pages_added(
    before: Map<u64, PageEntry<X86PageSize>>,
    after: Map<u64, PageEntry<X86PageSize>>,
    lo: int,
    hi: int,
) -> bool {
    &&& forall|k: u64| #[trigger]
        before.contains_key(k) ==> after.contains_key(k) && after[k] == before[k] && !(lo <= k
            < hi)
    &&& forall|k: u64| #[trigger]
        after.contains_key(k) ==> before.contains_key(k) || (lo <= k < hi && k % PAGE_SIZE == 0)
    &&& forall|v: int| lo <= v < hi ==> !#[trigger] paging::mapped(before, v)
}

/// The page that starts at `k` is the same in both page tables: writable data in a frame that
/// came out of the allocator.
pub open spec fn page_shared(
    kernel: Map<u64, PageEntry<X86PageSize>>,
    bootloader: Map<u64, PageEntry<X86PageSize>>,
    k: u64,
    available_before: Set<int>,
    available_after: Set<int>,
) -> bool {
    &&& kernel.contains_key(k)
    &&& bootloader.contains_key(k)
    &&& kernel[k] == bootloader[k]
    &&& kernel[k].flags == PageFlags { writable: true, executable: false }
    &&& kernel[k].size == X86PageSize::Size4KiB
    &&& forall|a: int|
        kernel[k].phys <= a < kernel[k].phys + PAGE_SIZE ==> #[trigger] available_before.contains(
            a,
        ) && !available_after.contains(a)
}

/// The pages from `lo` to `hi` are shared, each in a frame of its own.
pub open spec fn pages_shared(
    kernel: Map<u64, PageEntry<X86PageSize>>,
    bootloader: Map<u64, PageEntry<X86PageSize>>,
    lo: int,
    hi: int,
    available_before: Set<int>,
    available_after: Set<int>,
) -> bool {
    &&& forall|k: u64|
        lo <= k < hi && k % PAGE_SIZE == 0 ==> #[trigger] page_shared(
            kernel,
            bootloader,
            k,
            available_before,
            available_after,
        )
    &&& forall|j: u64, k: u64|
        lo <= j < k < hi && j % PAGE_SIZE == 0 && k % PAGE_SIZE == 0 ==> (#[trigger] kernel[j]).phys
            != (#[trigger] kernel[k]).phys
}

/// A page of the boot info: writable data.
pub open spec fn boot_info_entry(frame: u64) -> PageEntry<X86PageSize> {
    PageEntry {
        phys: frame,
        flags: PageFlags { writable: true, executable: false },
        size: X86PageSize::Size4KiB,
    }
}

/// The page table of an address space, and the requests that it has refused.
pub struct Table {
    pub entries: Map<u64, PageEntry<X86PageSize>>,
    pub refusals: Seq<(Request<X86PageSize>, MapError)>,
}

/// The current state of a page table.
pub open spec fn table<P: PageTable<X86PageSize>>(page_table: P) -> Table {
    Table { entries: page_table.entries(), refusals: page_table.refusals() }
}

/// The state of a page table that has refused the boot info page at `at`, to be mapped to
/// `frame`.
pub open spec fn refused_page(
    before: Table,
    after: Table,
    at: u64,
    frame: u64,
    reason: MapError,
) -> bool {
    after.refusals == before.refusals.push(
        (Request::MapPage { virt: at, entry: boot_info_entry(frame) }, reason),
    )
}

/// Mapping the boot info from `lo` on stopped at the page `at`: the pages before it are mapped in
/// both address spaces, and the next request for this page was refused. If a frame was handed
/// out for it, that is `frame`.
pub open spec fn boot_info_stopped(
    kernel: Table,
    bootloader: Table,
    available: Set<int>,
    refused: Seq<X86PageSize>,
    lo: int,
    at: u64,
    frame: u64,
    kernel_after: Table,
    bootloader_after: Table,
    available_after: Set<int>,
    refused_after: Seq<X86PageSize>,
    error: BootInfoError,
) -> bool {
    let taken = forall|a: int|
        frame <= a < frame + PAGE_SIZE ==> #[trigger] available.contains(a)
            && !available_after.contains(a);
    &&& lo <= at
    &&& at % PAGE_SIZE == 0
    &&& pages_added(bootloader.entries, bootloader_after.entries, lo, at as int)
    &&& pages_shared(
        kernel_after.entries,
        bootloader_after.entries,
        lo,
        at as int,
        available,
        available_after,
    )
    &&& match error {
        BootInfoError::FrameAllocationFailed => {
            &&& pages_added(kernel.entries, kernel_after.entries, lo, at as int)
            &&& kernel_after.refusals == kernel.refusals
            &&& bootloader_after.refusals == bootloader.refusals
            &&& refused_after == refused.push(X86PageSize::Size4KiB)
        },
        BootInfoError::KernelMapping(reason) => {
            &&& taken
            &&& pages_added(kernel.entries, kernel_after.entries, lo, at as int)
            &&& refused_page(kernel, kernel_after, at, frame, reason)
            &&& bootloader_after.refusals == bootloader.refusals
        },
        BootInfoError::BootloaderMapping(reason) => {
            &&& taken
            &&& pages_added(kernel.entries, kernel_after.entries, lo, at + PAGE_SIZE)
            &&& kernel_after.entries.contains_key(at)
            &&& kernel_after.entries[at] == boot_info_entry(frame)
            &&& kernel_after.refusals == kernel.refusals
            &&& refused_page(bootloader, bootloader_after, at, frame, reason)
        },
        _ => false,
    }
}

/// One more page behind a range of added pages.
proof fn lemma_added_page(
    before: Map<u64, PageEntry<X86PageSize>>,
    now: Map<u64, PageEntry<X86PageSize>>,
    lo: int,
    page: u64,
    entry: PageEntry<X86PageSize>,
)
    requires
        paging::wf_entries(before),
        pages_added(before, now, lo, page as int),
        lo <= page,
        page % PAGE_SIZE == 0,
        forall|v: int| page <= v < page + PAGE_SIZE ==> !#[trigger] paging::mapped(now, v),
    ensures
        pages_added(before, now.insert(page, entry), lo, page + PAGE_SIZE),
{
    let after = now.insert(page, entry);
    assert forall|v: int| page <= v < page + PAGE_SIZE implies !#[trigger] paging::mapped(
        before,
        v,
    ) by {
        if paging::mapped(before, v) {
            let k = paging::page_at(before, v);
            assert(paging::covers(before, k, v));
            assert(paging::covers(now, k, v));
            assert(paging::mapped(now, v));
        }
    }
    assert forall|k: u64| #[trigger] before.contains_key(k) implies after.contains_key(k)
        && after[k] == before[k] && !(lo <= k < page + PAGE_SIZE) by {
        assert(paging::wf_entry(k, before[k]));
        assert(paging::covers(before, k, k as int));
        assert(paging::mapped(before, k as int));
    }
}

/// The pages before `page` are still shared when the kernel's page table gets that page, and
/// when more frames are handed out.
proof fn lemma_still_shared(
    kernel: Map<u64, PageEntry<X86PageSize>>,
    kernel_after: Map<u64, PageEntry<X86PageSize>>,
    bootloader: Map<u64, PageEntry<X86PageSize>>,
    lo: int,
    page: u64,
    available: Set<int>,
    now: Set<int>,
    after: Set<int>,
)
    requires
        pages_shared(kernel, bootloader, lo, page as int, available, now),
        after.subset_of(now),
        kernel_after == kernel || kernel_after == kernel.insert(page, kernel_after[page]),
    ensures
        pages_shared(kernel_after, bootloader, lo, page as int, available, after),
{
    assert forall|k: u64| lo <= k < page && k % PAGE_SIZE == 0 implies #[trigger] page_shared(
        kernel_after,
        bootloader,
        k,
        available,
        after,
    ) by {
        assert(page_shared(kernel, bootloader, k, available, now));
    }
    assert forall|j: u64, k: u64|
        lo <= j < k < page && j % PAGE_SIZE == 0 && k % PAGE_SIZE == 0 implies (
    #[trigger] kernel_after[j]).phys != (#[trigger] kernel_after[k]).phys by {
        assert(kernel[j].phys != kernel[k].phys);
    }
}

/// Map the boot info in both address spaces.
///
/// The boot info and memory map are mapped to both the kernel and bootloader
/// address space at the same address. This makes it possible to use a
/// reference that is valid in both address spaces. The necessary physical frames
/// are taken from the given allocator.
#[verifier::spinoff_prover]
#[verifier::rlimit(40)]
pub fn map_boot_info<
    K: PageTable<X86PageSize>,
    B: PageTable<X86PageSize>,
    A: FrameAllocator<X86PageSize>,
>(
    addr: VirtAddr,
    size: u64,
    kernel: &mut K,
    bootloader: &mut B,
    allocator: &mut A,
) -> (r: Result<(), BootInfoError>)
    requires
        paging::wf_entries(old(kernel).entries()),
        paging::wf_entries(old(bootloader).entries()),
        size > 0,
        addr.0 + size <= u64::MAX,
    ensures
        ({
            let lo = arith::floor_to(addr.0 as int, PAGE_SIZE as int);
            let hi = arith::floor_to(addr.0 + size - 1, PAGE_SIZE as int) + PAGE_SIZE;
            match r {
                Ok(_) => {
                    &&& pages_added(old(kernel).entries(), final(kernel).entries(), lo, hi)
                    &&& pages_added(
                        old(bootloader).entries(),
                        final(bootloader).entries(),
                        lo,
                        hi,
                    )
                    &&& pages_shared(
                        final(kernel).entries(),
                        final(bootloader).entries(),
                        lo,
                        hi,
                        old(allocator).available(),
                        final(allocator).available(),
                    )
                    &&& final(kernel).refusals() == old(kernel).refusals()
                    &&& final(bootloader).refusals() == old(bootloader).refusals()
                    &&& final(allocator).refused() == old(allocator).refused()
                    &&& final(allocator).granted().len() == old(allocator).granted().len() + (hi
                        - lo) / PAGE_SIZE as int + (final(kernel).tables().len() - old(
                        kernel,
                    ).tables().len()) + (final(bootloader).tables().len() - old(
                        bootloader,
                    ).tables().len())
                },
                Err(e) => exists|at: u64, frame: u64|
                    at < hi && #[trigger] boot_info_stopped(
                        table(*old(kernel)),
                        table(*old(bootloader)),
                        old(allocator).available(),
                        old(allocator).refused(),
                        lo,
                        at,
                        frame,
                        table(*final(kernel)),
                        table(*final(bootloader)),
                        final(allocator).available(),
                        final(allocator).refused(),
                        e,
                    ),
            }
        }),
        final(allocator).available().subset_of(old(allocator).available()),
{
    let start_page: u64 = arith::align_down(addr.as_u64(), PAGE_SIZE);
    let end_page: u64 = arith::align_down(addr.as_u64() + (size - 1), PAGE_SIZE);
    let ghost lo = start_page as int;
    let ghost before_kernel = kernel.entries();
    let ghost before_bootloader = bootloader.entries();
    let ghost available = allocator.available();
    let flags = PageFlags { writable: true, executable: false };
    proof {
        x86_64::lemma_page_sizes();
        if end_page < start_page {
            arith::lemma_multiples_apart(end_page as int, start_page as int, PAGE_SIZE as int);
        }
    }
    let count: u64 = (end_page - start_page) / PAGE_SIZE + 1;
    let mut i: u64 = 0;
    while i < count
        invariant
            i <= count,
            lo == start_page,
            start_page == arith::floor_to(addr.0 as int, PAGE_SIZE as int),
            end_page == arith::floor_to(addr.0 + size - 1, PAGE_SIZE as int),
            start_page <= end_page,
            start_page % PAGE_SIZE == 0,
            end_page % PAGE_SIZE == 0,
            count == (end_page - start_page) / PAGE_SIZE as int + 1,
            flags == (PageFlags { writable: true, executable: false }),
            before_kernel == old(kernel).entries(),
            before_bootloader == old(bootloader).entries(),
            available == old(allocator).available(),
            paging::wf_entries(before_kernel),
            paging::wf_entries(before_bootloader),
            pages_added(before_kernel, kernel.entries(), lo, lo + i * PAGE_SIZE),
            pages_added(before_bootloader, bootloader.entries(), lo, lo + i * PAGE_SIZE),
            pages_shared(
                kernel.entries(),
                bootloader.entries(),
                lo,
                lo + i * PAGE_SIZE,
                available,
                allocator.available(),
            ),
            allocator.available().subset_of(available),
            kernel.refusals() == old(kernel).refusals(),
            bootloader.refusals() == old(bootloader).refusals(),
            allocator.refused() == old(allocator).refused(),
            allocator.granted().len() == old(allocator).granted().len() + i + (
            kernel.tables().len() - old(kernel).tables().len()) + (bootloader.tables().len() - old(
                bootloader,
            ).tables().len()),
        decreases count - i,
    {
        let page: u64 = start_page + i * PAGE_SIZE;
        assert(page <= end_page);
        let ghost now_available = allocator.available();
        let ghost now_kernel = kernel.entries();
        let ghost now_bootloader = bootloader.entries();
        let frame: PhysAddr = match allocator.allocate_frame(X86PageSize::Size4KiB) {
            Some(frame) => frame,
            None => {
                proof {
                    lemma_still_shared(
                        now_kernel,
                        kernel.entries(),
                        now_bootloader,
                        lo,
                        page,
                        available,
                        now_available,
                        allocator.available(),
                    );
                    assert(boot_info_stopped(
                        table(*old(kernel)),
                        table(*old(bootloader)),
                        available,
                        old(allocator).refused(),
                        lo,
                        page,
                        0,
                        table(*kernel),
                        table(*bootloader),
                        allocator.available(),
                        allocator.refused(),
                        BootInfoError::FrameAllocationFailed,
                    ));
                }
                return Err(BootInfoError::FrameAllocationFailed);
            },
        };
        let ghost after_frame = allocator.available();
        match kernel.map(VirtAddr::new(page), frame, X86PageSize::Size4KiB, flags, allocator) {
            Ok(_) => {},
            Err(e) => {
                proof {
                    lemma_still_shared(
                        now_kernel,
                        kernel.entries(),
                        now_bootloader,
                        lo,
                        page,
                        available,
                        now_available,
                        allocator.available(),
                    );
                    assert(boot_info_stopped(
                        table(*old(kernel)),
                        table(*old(bootloader)),
                        available,
                        old(allocator).refused(),
                        lo,
                        page,
                        frame.0,
                        table(*kernel),
                        table(*bootloader),
                        allocator.available(),
                        allocator.refused(),
                        BootInfoError::KernelMapping(e),
                    ));
                }
                return Err(BootInfoError::KernelMapping(e));
            },
        }
        // The bootloader needs to be able to access it too.
        match bootloader.map(VirtAddr::new(page), frame, X86PageSize::Size4KiB, flags, allocator) {
            Ok(_) => {},
            Err(e) => {
                proof {
                    lemma_still_shared(
                        now_kernel,
                        kernel.entries(),
                        now_bootloader,
                        lo,
                        page,
                        available,
                        now_available,
                        allocator.available(),
                    );
                    lemma_added_page(
                        before_kernel,
                        now_kernel,
                        lo,
                        page,
                        boot_info_entry(frame.0),
                    );
                    assert(boot_info_stopped(
                        table(*old(kernel)),
                        table(*old(bootloader)),
                        available,
                        old(allocator).refused(),
                        lo,
                        page,
                        frame.0,
                        table(*kernel),
                        table(*bootloader),
                        allocator.available(),
                        allocator.refused(),
                        BootInfoError::BootloaderMapping(e),
                    ));
                }
                return Err(BootInfoError::BootloaderMapping(e));
            },
        }
        proof {
            let entry = PageEntry { phys: frame.0, flags, size: X86PageSize::Size4KiB };
            lemma_added_page(before_kernel, now_kernel, lo, page, entry);
            lemma_added_page(before_bootloader, now_bootloader, lo, page, entry);
            assert forall|k: u64| lo <= k < page + PAGE_SIZE && k % PAGE_SIZE == 0 implies
                #[trigger] page_shared(
                kernel.entries(),
                bootloader.entries(),
                k,
                available,
                allocator.available(),
            ) by {
                if k < page {
                    assert(page_shared(now_kernel, now_bootloader, k, available, now_available));
                } else {
                    assert(k == page);
                    assert forall|a: int| frame.0 <= a < frame.0 + PAGE_SIZE implies
                        #[trigger] available.contains(a) && !allocator.available().contains(a) by {
                        assert(now_available.contains(a));
                        assert(!after_frame.contains(a));
                    }
                }
            }
            assert forall|j: u64, k: u64|
                lo <= j < k < page + PAGE_SIZE && j % PAGE_SIZE == 0 && k % PAGE_SIZE
                    == 0 implies (#[trigger] kernel.entries()[j]).phys != (
            #[trigger] kernel.entries()[k]).phys by {
                assert(page_shared(now_kernel, now_bootloader, j, available, now_available));
                if k < page {
                    assert(now_kernel[j].phys != now_kernel[k].phys);
                } else {
                    assert(k == page);
                    assert(now_available.contains(frame.0 as int));
                    assert(!now_available.contains(now_kernel[j].phys as int));
                }
            }
        }
        i = i + 1;
    }
    Ok(())
}

/// The fields of the boot info that describe the mappings.
#[derive(Clone, Copy, Debug, PartialEq, Eq, Structural)]
pub struct BootInfoFields {
    /// The virtual address of the framebuffer, if there is one.
    pub framebuffer: Option<u64>,
    /// The virtual address at which physical memory is mapped, if it is.
    pub physical_memory_offset: Option<u64>,
    /// The level 4 entry of the recursive mapping, if there is one.
    pub recursive_index: Option<u16>,
    /// The address of the ACPI root system description pointer.
    pub rsdp_addr: Option<u64>,
    /// The thread local storage template of the kernel.
    pub tls_template: Option<TlsTemplate>,
    /// The virtual address of the ramdisk, if there is one.
    pub ramdisk_addr: Option<u64>,
    /// The length of the ramdisk.
    pub ramdisk_len: u64,
    /// The physical address of the kernel file.
    pub kernel_addr: u64,
    /// The length of the kernel file.
    pub kernel_len: u64,
    /// The offset at which the kernel is loaded.
    pub kernel_image_offset: u64,
    /// The start of the kernel stack.
    pub kernel_stack_bottom: u64,
    /// The length of the kernel stack.
    pub kernel_stack_len: u64,
}

/// The address in an optional virtual address.
pub open spec fn raw_addr(addr: Option<VirtAddr>) -> Option<u64> {
    match addr {
        Some(addr) => Some(addr.0),
        None => None,
    }
}

/// An address is reported if and only if there is one, and as it is.
pub proof fn lemma_raw_addr(addr: Option<VirtAddr>)
    ensures
        raw_addr(addr) is Some <==> addr is Some,
        addr is Some ==> raw_addr(addr)->Some_0 == addr->Some_0.0,
{
}

/// The address in an optional virtual address.
fn addr_of(addr: Option<VirtAddr>) -> (r: Option<u64>)
    ensures
        r == raw_addr(addr),
{
    match addr {
        Some(addr) => Some(addr.as_u64()),
        None => None,
    }
}

/// Fill in the boot info. There must not be a mapping for the framebuffer if there is no
/// framebuffer.
pub fn boot_info_fields(config: &BootloaderConfig, mappings: &Mappings, info: &SystemInfo) -> (r:
    BootInfoFields)
    requires
        mappings.framebuffer is Some ==> info.framebuffer is Some,
    ensures
        r == (BootInfoFields {
            framebuffer: raw_addr(mappings.framebuffer),
            physical_memory_offset: raw_addr(mappings.physical_memory_offset),
            recursive_index: mappings.recursive_index,
            rsdp_addr: match info.rsdp_addr {
                Some(addr) => Some(addr.0),
                None => None,
            },
            tls_template: mappings.tls_template,
            ramdisk_addr: raw_addr(mappings.ramdisk_slice_start),
            ramdisk_len: mappings.ramdisk_slice_len,
            kernel_addr: mappings.kernel_slice_start.0,
            kernel_len: mappings.kernel_slice_len,
            kernel_image_offset: mappings.kernel_image_offset.0,
            kernel_stack_bottom: mappings.stack_bottom.0,
            kernel_stack_len: config.kernel_stack_size,
        }),
{
    BootInfoFields {
        framebuffer: addr_of(mappings.framebuffer),
        physical_memory_offset: addr_of(mappings.physical_memory_offset),
        recursive_index: mappings.recursive_index,
        rsdp_addr: match info.rsdp_addr {
            Some(addr) => Some(addr.as_u64()),
            None => None,
        },
        tls_template: mappings.tls_template,
        ramdisk_addr: addr_of(mappings.ramdisk_slice_start),
        ramdisk_len: mappings.ramdisk_slice_len,
        kernel_addr: mappings.kernel_slice_start.as_u64(),
        kernel_len: mappings.kernel_slice_len,
        kernel_image_offset: mappings.kernel_image_offset.as_u64(),
        kernel_stack_bottom: mappings.stack_bottom.as_u64(),
        kernel_stack_len: config.kernel_stack_size,
    }
}

} // verus!
