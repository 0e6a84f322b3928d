//! Platform-agnostic ELF kernel loader for bootloaders.
//!
//! This crate provides the [`Loader`] type that can load a kernel ELF
//! binary into a new page table hierarchy via generic traits. It supports:
//!
//! - ET_EXEC and ET_DYN (PIE) kernel binaries
//! - RELA and RELR (compact) relocations
//! - TLS template extraction
//! - BSS zeroing with copy-on-write
//! - RELRO segment protection
//! - Mapping additional regions (framebuffer, ramdisk, physical memory, stack)
//! - Guard pages for stack overflow detection
//! - ASLR via optional random words
//! - Huge page support via generic `PageSize` trait
//!
//! # Platform Integration
//!
//! To use this crate, the platform (e.g. x86_64 bootloader) must implement:
//!
//! - [`PageSize`]: enumerate the supported page sizes
//! - [`PageTable`]: abstract page table operations
//! - [`FrameAllocator`]: allocate physical frames
//! - [`PhysicalMemoryAccess`]: read/write/zero/copy physical memory
//!
//! The contracts of these traits say what the loader relies on. The contracts of the loader
//! speak of the kernel's virtual memory, which [`paging`] derives from a page table and
//! physical memory.
//!
//! The modules [`boot`], [`boot_config`], [`boot_info`], [`x86_64`] and [`x86_bridge`] use the
//! loader to boot a kernel on x86_64.

pub mod address_space;
pub mod arith;
pub mod boot;
pub mod boot_config;
pub mod boot_info;
pub mod boot_laws;
pub mod elf_file;
pub mod elf_loading;
pub mod error;
pub mod error_laws;
pub mod kernel_image;
pub mod laws;
pub mod loader;
pub mod mapping;
pub mod paging;
pub mod physical;
pub mod properties;
pub mod region_laws;
pub mod relocation;
pub mod relocation_laws;
pub mod state;
pub mod traits;
pub mod x86_64;
pub mod x86_bridge;
pub mod zeroed;

pub use crate::address_space::AddressSpace;
pub use crate::error::{LoadError, MapError, UnmapError};
pub use crate::loader::{KernelPlacement, Loader, RegionPlacement};
pub use crate::traits::{
    FrameAllocator, PageFlags, PageSize, PageTable, PhysAddr, PhysicalMemoryAccess, VirtAddr,
};
use vstd::prelude::*;

verus! {

/// Result of loading a kernel ELF.
#[derive(Clone, Copy, Debug, PartialEq, Eq, Structural)]
pub struct LoadedKernel {
    /// The kernel's entry point virtual address.
    pub entry_point: VirtAddr,
    /// Offset applied to ELF virtual addresses (0 for ET_EXEC).
    pub load_base: i64,
    /// TLS template, if the kernel has a TLS segment.
    pub tls_template: Option<TlsTemplate>,
}

/// Thread Local Storage template information.
#[derive(Clone, Copy, Debug, PartialEq, Eq, Structural)]
pub struct TlsTemplate {
    /// Virtual address of the TLS template data.
    pub start_addr: VirtAddr,
    /// Size of initialized TLS data (from the file).
    pub file_size: u64,
    /// Total size of the TLS area in memory (includes uninitialized portion).
    pub mem_size: u64,
}

} // verus!
