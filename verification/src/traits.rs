//! Addresses, page flags, and the traits that a platform implements.
//!
//! Each architecture implements these traits to bridge between the loader
//! and the platform's page table format, frame allocator, and physical
//! memory access model.
//!
//! The spec functions of the traits give names to the state of the platform, of which the
//! contracts of the other methods speak. They have a body only so that a platform can implement
//! the traits in ordinary Rust, where there is no spec code: nothing is known of an
//! implementation but what the contracts say.

use crate::arith;
use crate::error::{MapError, UnmapError};
use crate::paging;
use crate::paging::PageEntry;
use vstd::prelude::*;

verus! {

/// A physical address.
#[derive(Clone, Copy, Debug, PartialEq, Eq, Structural, PartialOrd, Ord)]
pub struct PhysAddr(pub u64);

impl PhysAddr {
    /// Create a new physical address.
    pub fn new(addr: u64) -> (r: Self)
        ensures
            r.0 == addr,
    {
        PhysAddr(addr)
    }

    /// Return the raw address value.
    pub fn as_u64(self) -> (r: u64)
        ensures
            r == self.0,
    {
        self.0
    }

    /// Check whether this address is aligned to `alignment`.
    pub fn is_aligned(self, alignment: u64) -> (r: bool)
        requires
            alignment > 0,
        ensures
            r == (self.0 as int % alignment as int == 0),
    {
        self.0 % alignment == 0
    }

    /// Round this address down to the nearest multiple of `alignment`.
    pub fn align_down(self, alignment: u64) -> (r: Self)
        requires
            alignment > 0,
        ensures
            r.0 == arith::floor_to(self.0 as int, alignment as int),
    {
        PhysAddr(arith::align_down(self.0, alignment))
    }

    /// Round this address up to the nearest multiple of `alignment`.
    pub fn align_up(self, alignment: u64) -> (r: Self)
        requires
            alignment > 0,
            self.0 + alignment - 1 <= u64::MAX,
        ensures
            r.0 == arith::ceil_to(self.0 as int, alignment as int),
    {
        PhysAddr(arith::align_up(self.0, alignment))
    }
}

/// A virtual address.
#[derive(Clone, Copy, Debug, PartialEq, Eq, Structural, PartialOrd, Ord)]
pub struct VirtAddr(pub u64);

impl VirtAddr {
    /// Create a new virtual address.
    pub fn new(addr: u64) -> (r: Self)
        ensures
            r.0 == addr,
    {
        VirtAddr(addr)
    }

    /// Return the raw address value.
    pub fn as_u64(self) -> (r: u64)
        ensures
            r == self.0,
    {
        self.0
    }

    /// Check whether this address is aligned to `alignment`.
    pub fn is_aligned(self, alignment: u64) -> (r: bool)
        requires
            alignment > 0,
        ensures
            r == (self.0 as int % alignment as int == 0),
    {
        self.0 % alignment == 0
    }

    /// Round this address down to the nearest multiple of `alignment`.
    pub fn align_down(self, alignment: u64) -> (r: Self)
        requires
            alignment > 0,
        ensures
            r.0 == arith::floor_to(self.0 as int, alignment as int),
    {
        VirtAddr(arith::align_down(self.0, alignment))
    }

    /// Round this address up to the nearest multiple of `alignment`.
    pub fn align_up(self, alignment: u64) -> (r: Self)
        requires
            alignment > 0,
            self.0 + alignment - 1 <= u64::MAX,
        ensures
            r.0 == arith::ceil_to(self.0 as int, alignment as int),
    {
        VirtAddr(arith::align_up(self.0, alignment))
    }
}

/// Flags for page table entries.
#[derive(Clone, Copy, Debug, PartialEq, Eq, Structural)]
pub struct PageFlags {
    /// Whether the page is writable.
    pub writable: bool,
    /// Whether the page is executable.
    pub executable: bool,
}

impl Default for PageFlags {
    /// A page that can neither be written nor executed.
    fn default() -> (r: Self)
        ensures
            !r.writable,
            !r.executable,
    {
        PageFlags { writable: false, executable: false }
    }
}

/// Platform-defined page size.
///
/// Each architecture implements this for its own enum of supported
/// page sizes (e.g. x86_64: 4KiB/2MiB/1GiB, AArch64 4K granule:
/// 4KiB/2MiB/1GiB, RISC-V Sv39: 4KiB/2MiB/1GiB, etc.).
pub trait PageSize: Copy + Eq + 'static {
    /// The smallest page size supported by the platform.
    /// The loader uses this as the base granularity for partial-page
    /// BSS handling, copy-on-write, etc.
    const BASE: Self;

    /// Size of this page in bytes.
    open spec fn size(self) -> u64 {
        arbitrary()
    }

    /// The sizes for huge-page mappings, largest first.
    open spec fn huge_sizes() -> Seq<Self> {
        arbitrary()
    }

    /// Size of this page in bytes. Must be a power of two.
    fn bytes(self) -> (r: u64)
        ensures
            r == self.size(),
            vstd::arithmetic::power2::is_pow2(r as int),
    ;

    /// All page sizes **in descending order** that the platform supports
    /// for huge-page mappings.
    ///
    /// Only consulted when the caller opts into huge pages. The loader
    /// walks this list and uses the largest size whose alignment is
    /// satisfied by both the virtual and physical address and that
    /// fits in the remaining region.
    ///
    /// Holds `Self::BASE` alone if huge pages are not desired.
    fn huge_page_sizes() -> (r: &'static [Self])
        ensures
            r@ == Self::huge_sizes(),
            forall|i: int|
                0 <= i < r@.len() ==> (#[trigger] r@[i]).size() >= Self::BASE.size()
                    && vstd::arithmetic::power2::is_pow2(r@[i].size() as int),
            forall|i: int, j: int|
                0 <= i <= j < r@.len() ==> (#[trigger] r@[i]).size() >= (#[trigger] r@[j]).size(),
    ;
}

/// Allocates physical memory frames.
///
/// The caller (BIOS/UEFI bootloader) constructs this from the firmware
/// memory map, ensuring only usable physical memory is handed out.
pub trait FrameAllocator<S: PageSize> {
    /// The physical bytes that can still be handed out.
    open spec fn available(&self) -> Set<int> {
        arbitrary()
    }

    /// The sizes of the frames that were asked for and refused so far.
    open spec fn refused(&self) -> Seq<S> {
        arbitrary()
    }

    /// The frames that were handed out so far, with their sizes.
    open spec fn granted(&self) -> Seq<(S, u64)> {
        arbitrary()
    }

    /// Allocate a physical frame of the given size.
    /// The returned address must be aligned to `size.bytes()`, and no byte
    /// of the frame is handed out a second time.
    fn allocate_frame(&mut self, size: S) -> (r: Option<PhysAddr>)
        ensures
            match r {
                Some(frame) => {
                    &&& frame.0 as int % size.size() as int == 0
                    &&& forall|a: int|
                        frame.0 <= a < frame.0 + size.size() ==> #[trigger] old(
                            self,
                        ).available().contains(a) && !final(self).available().contains(a)
                    &&& final(self).refused() == old(self).refused()
                    &&& final(self).granted() == old(self).granted().push((size, frame.0))
                },
                None => {
                    &&& final(self).refused() == old(self).refused().push(size)
                    &&& final(self).granted() == old(self).granted()
                },
            },
            final(self).available().subset_of(old(self).available()),
    ;
}

/// What was added to a list.
pub open spec fn added<T>(before: Seq<T>, after: Seq<T>) -> Seq<T> {
    after.skip(before.len() as int)
}

/// What was added in two steps.
pub proof fn lemma_added_chain<T>(first: Seq<T>, second: Seq<T>, third: Seq<T>, other: Seq<T>)
    requires
        second == first + added(first, second),
        third == second + added(second, third),
    ensures
        third == first + added(first, third),
        other + added(first, third) == (other + added(first, second)) + added(second, third),
{
    assert(added(first, third) =~= added(first, second) + added(second, third));
    assert(third =~= first + added(first, third));
    assert(other + added(first, third) =~= (other + added(first, second)) + added(second, third));
}

/// A request to change a page table.
pub enum Request<S> {
    /// Map the page at `virt`.
    MapPage { virt: u64, entry: PageEntry<S> },
    /// Give other flags to the page at `virt`.
    UpdateFlags { virt: u64, flags: PageFlags },
}

/// Abstraction over a page table hierarchy.
///
/// All operations work on the **kernel's** page table (not the currently
/// active one). Generic over the platform's page size type.
///
/// Implementors must guarantee that the page table represented by
/// this type is **not** the currently active page table.
pub trait PageTable<S: PageSize> {
    /// The mapped pages, by the virtual address at which each starts.
    open spec fn entries(&self) -> Map<u64, PageEntry<S>> {
        arbitrary()
    }

    /// The frames that the page table took so far to store itself, with their sizes.
    open spec fn tables(&self) -> Seq<(S, u64)> {
        arbitrary()
    }

    /// The requests to `map` and `update_flags` that were refused so far, and why.
    open spec fn refusals(&self) -> Seq<(Request<S>, MapError)> {
        arbitrary()
    }

    /// The pages for which `unmap` was refused so far, and why.
    open spec fn unmap_refusals(&self) -> Seq<(u64, UnmapError)> {
        arbitrary()
    }

    /// Map a virtual page to a physical frame.
    ///
    /// `virt` and `phys` must be aligned to `page_size.bytes()`, and no part
    /// of the page may be mapped already; otherwise the request is refused.
    /// Frames are taken from the allocator only to store the page table itself.
    fn map<A: FrameAllocator<S>>(
        &mut self,
        virt: VirtAddr,
        phys: PhysAddr,
        page_size: S,
        flags: PageFlags,
        allocator: &mut A,
    ) -> (r: Result<(), MapError>)
        ensures
            match r {
                Ok(_) => {
                    &&& virt.0 as int % page_size.size() as int == 0
                    &&& phys.0 as int % page_size.size() as int == 0
                    &&& forall|v: int|
                        virt.0 <= v < virt.0 + page_size.size() ==> !#[trigger] paging::mapped(
                            old(self).entries(),
                            v,
                        )
                    &&& final(self).entries() == old(self).entries().insert(
                        virt.0,
                        PageEntry { phys: phys.0, flags, size: page_size },
                    )
                    &&& final(self).refusals() == old(self).refusals()
                    &&& final(allocator).refused() == old(allocator).refused()
                },
                Err(e) => {
                    &&& final(self).entries() == old(self).entries()
                    &&& final(self).refusals() == old(self).refusals().push(
                        (
                            Request::MapPage {
                                virt: virt.0,
                                entry: PageEntry { phys: phys.0, flags, size: page_size },
                            },
                            e,
                        ),
                    )
                },
            },
            final(self).unmap_refusals() == old(self).unmap_refusals(),
            final(self).tables() == old(self).tables() + added(
                old(self).tables(),
                final(self).tables(),
            ),
            final(allocator).granted() == old(allocator).granted() + added(
                old(self).tables(),
                final(self).tables(),
            ),
            final(allocator).available().subset_of(old(allocator).available()),
    ;

    /// Change the flags of an existing mapping of the base size without changing the
    /// physical frame. `virt` is the start of a page.
    fn update_flags(&mut self, virt: VirtAddr, flags: PageFlags) -> (r: Result<(), MapError>)
        requires
            virt.0 as int % S::BASE.size() as int == 0,
        ensures
            match r {
                Ok(_) => {
                    &&& old(self).entries().contains_key(virt.0)
                    &&& old(self).entries()[virt.0].size == S::BASE
                    &&& final(self).entries() == old(self).entries().insert(
                        virt.0,
                        PageEntry { flags, ..old(self).entries()[virt.0] },
                    )
                    &&& final(self).refusals() == old(self).refusals()
                },
                Err(e) => {
                    &&& final(self).entries() == old(self).entries()
                    &&& final(self).refusals() == old(self).refusals().push(
                        (Request::UpdateFlags { virt: virt.0, flags }, e),
                    )
                },
            },
            final(self).unmap_refusals() == old(self).unmap_refusals(),
            final(self).tables() == old(self).tables(),
    ;

    /// Unmap a virtual page of the base size. Returns the physical frame and
    /// page size it was mapped to. `virt` is the start of a page.
    fn unmap(&mut self, virt: VirtAddr) -> (r: Result<(PhysAddr, S), UnmapError>)
        requires
            virt.0 as int % S::BASE.size() as int == 0,
        ensures
            match r {
                Ok((phys, size)) => {
                    &&& old(self).entries().contains_key(virt.0)
                    &&& phys.0 == old(self).entries()[virt.0].phys
                    &&& size == old(self).entries()[virt.0].size
                    &&& size == S::BASE
                    &&& final(self).entries() == old(self).entries().remove(virt.0)
                    &&& final(self).unmap_refusals() == old(self).unmap_refusals()
                },
                Err(e) => {
                    &&& final(self).entries() == old(self).entries()
                    &&& final(self).unmap_refusals() == old(self).unmap_refusals().push(
                        (virt.0, e),
                    )
                },
            },
            final(self).refusals() == old(self).refusals(),
            final(self).tables() == old(self).tables(),
    ;

    /// Translate a virtual address to (physical address, flags, page size).
    fn translate(&self, virt: VirtAddr) -> (r: Option<(PhysAddr, PageFlags, S)>)
        ensures
            match r {
                Some((phys, flags, size)) => exists|k: u64|
                    {
                        &&& #[trigger] paging::covers(self.entries(), k, virt.0 as int)
                        &&& phys.0 == self.entries()[k].phys + (virt.0 - k)
                        &&& flags == self.entries()[k].flags
                        &&& size == self.entries()[k].size
                    },
                None => !paging::mapped(self.entries(), virt.0 as int),
            },
    ;
}

/// Access to physical memory from the bootloader environment.
///
/// In a typical identity-mapped bootloader, `phys_addr == virt_addr`,
/// so these are trivial pointer dereferences. This trait exists so
/// the loader doesn't hard-code that assumption.
///
/// Implementors must guarantee that **all valid physical addresses**
/// (i.e., addresses returned by [`FrameAllocator::allocate_frame`] or
/// obtained via [`PageTable::translate`]) are accessible through this
/// trait's methods.
pub trait PhysicalMemoryAccess {
    /// The byte at each physical address. Frames that hold the page tables
    /// themselves are not part of this memory.
    open spec fn memory(&self) -> Map<int, u8> {
        arbitrary()
    }

    /// Read `buf.len()` bytes from physical address `addr` into `buf`.
    fn read_phys(&self, addr: PhysAddr, buf: &mut [u8])
        ensures
            final(buf)@ == paging::bytes_at(self.memory(), addr.0 as int, old(buf)@.len()),
    ;

    /// Write `buf.len()` bytes from `buf` to physical address `addr`.
    fn write_phys(&mut self, addr: PhysAddr, buf: &[u8])
        ensures
            final(self).memory() == paging::stored(old(self).memory(), addr.0 as int, buf@),
    ;

    /// Zero `len` bytes at physical address `addr`.
    fn zero_phys(&mut self, addr: PhysAddr, len: u64)
        ensures
            final(self).memory() == paging::stored(
                old(self).memory(),
                addr.0 as int,
                paging::zeros(len as nat),
            ),
    ;

    /// Copy `len` bytes from physical address `src` to `dst`.
    ///
    /// The source and destination ranges must not overlap.
    fn copy_phys(&mut self, src: PhysAddr, dst: PhysAddr, len: u64)
        requires
            src.0 + len <= dst.0 || dst.0 + len <= src.0,
        ensures
            final(self).memory() == paging::stored(
                old(self).memory(),
                dst.0 as int,
                paging::bytes_at(old(self).memory(), src.0 as int, len as nat),
            ),
    ;
}

} // verus!
