//! The x86_64 page sizes, page table flags and mapper results.
//!
//! The page tables themselves are walked by the platform; what its words and results mean to
//! the loader is decided here.

use crate::error::{MapError, UnmapError};
use crate::traits::{PageFlags, PageSize, PhysAddr, VirtAddr};
use vstd::prelude::*;

verus! {

/// Size of a page of the first level: 4 KiB.
pub const SIZE_4_KIB: u64 = 0x1000;

/// Size of a page of the second level: 2 MiB.
pub const SIZE_2_MIB: u64 = 0x20_0000;

/// x86_64 page sizes.
#[derive(Clone, Copy, Debug, PartialEq, Eq, Structural)]
pub enum X86_64PageSize {
    /// A page of 4 KiB.
    Size4KiB,
    /// A page of 2 MiB.
    Size2MiB,
}

/// The two page sizes are powers of two.
pub proof fn lemma_page_sizes()
    ensures
        vstd::arithmetic::power2::is_pow2(SIZE_4_KIB as int),
        vstd::arithmetic::power2::is_pow2(SIZE_2_MIB as int),
{
    reveal_with_fuel(vstd::arithmetic::power2::is_pow2, 23);
}

impl PageSize for X86_64PageSize {
    const BASE: Self = X86_64PageSize::Size4KiB;

    open spec fn size(self) -> u64 {
        match self {
            X86_64PageSize::Size4KiB => SIZE_4_KIB,
            X86_64PageSize::Size2MiB => SIZE_2_MIB,
        }
    }

    open spec fn huge_sizes() -> Seq<Self> {
        seq![X86_64PageSize::Size2MiB]
    }

    fn bytes(self) -> (r: u64) {
        proof {
            lemma_page_sizes();
        }
        match self {
            X86_64PageSize::Size4KiB => SIZE_4_KIB,
            X86_64PageSize::Size2MiB => SIZE_2_MIB,
        }
    }

    fn huge_page_sizes() -> (r: &'static [Self]) {
        proof {
            lemma_page_sizes();
        }
        let sizes: &'static [Self; 1] = &[X86_64PageSize::Size2MiB];
        let r: &'static [Self] = sizes;
        assert(r@ =~= Self::huge_sizes());
        r
    }
}

/// The base page size is 4 KiB.
pub proof fn lemma_base()
    ensures
        X86_64PageSize::BASE == X86_64PageSize::Size4KiB,
{
}

/// Page table flag: the page is mapped.
pub const PRESENT: u64 = 1;

/// Page table flag: the page is writable.
pub const WRITABLE: u64 = 2;

/// Page table flag: the page is not executable.
pub const NO_EXECUTE: u64 = 0x8000_0000_0000_0000;

/// The flags of parent tables. They need to be both readable and writable to support recursive
/// page tables.
pub const PARENT_FLAGS: u64 = 3;

/// The page table flags of a page: present, and writable or not executable as asked for.
pub open spec fn flag_word(flags: PageFlags) -> u64 {
    (1 + (if flags.writable {
        2int
    } else {
        0
    }) + (if flags.executable {
        0int
    } else {
        0x8000_0000_0000_0000
    })) as u64
}

/// What page table flags say of a page.
pub open spec fn word_flags(word: u64) -> PageFlags {
    PageFlags { writable: word & WRITABLE != 0, executable: word & NO_EXECUTE == 0 }
}

/// Convert [`PageFlags`] to x86_64 page table flags.
pub fn to_x86_64_flags(flags: PageFlags) -> (r: u64)
    ensures
        r == flag_word(flags),
{
    let mut f: u64 = PRESENT;
    if flags.writable {
        f = f | WRITABLE;
    }
    if !flags.executable {
        f = f | NO_EXECUTE;
    }
    assert(1u64 | 2u64 == 3u64) by (bit_vector);
    assert(1u64 | 0x8000_0000_0000_0000u64 == 0x8000_0000_0000_0001u64) by (bit_vector);
    assert(3u64 | 0x8000_0000_0000_0000u64 == 0x8000_0000_0000_0003u64) by (bit_vector);
    f
}

/// Convert x86_64 page table flags to [`PageFlags`].
pub fn from_x86_64_flags(word: u64) -> (r: PageFlags)
    ensures
        r == word_flags(word),
{
    PageFlags { writable: word & WRITABLE != 0, executable: word & NO_EXECUTE == 0 }
}

/// Flags that are written to a page table are read back unchanged.
pub proof fn lemma_flags_round_trip(flags: PageFlags)
    ensures
        word_flags(flag_word(flags)) == flags,
        flag_word(flags) & PRESENT != 0,
{
    assert(1u64 & 2u64 == 0 && 1u64 & 0x8000_0000_0000_0000u64 == 0 && 1u64 & 1u64 == 1)
        by (bit_vector);
    assert(3u64 & 2u64 == 2 && 3u64 & 0x8000_0000_0000_0000u64 == 0 && 3u64 & 1u64 == 1)
        by (bit_vector);
    assert(0x8000_0000_0000_0001u64 & 2u64 == 0 && 0x8000_0000_0000_0001u64
        & 0x8000_0000_0000_0000u64 == 0x8000_0000_0000_0000u64 && 0x8000_0000_0000_0001u64 & 1u64
        == 1) by (bit_vector);
    assert(0x8000_0000_0000_0003u64 & 2u64 == 2 && 0x8000_0000_0000_0003u64
        & 0x8000_0000_0000_0000u64 == 0x8000_0000_0000_0000u64 && 0x8000_0000_0000_0003u64 & 1u64
        == 1) by (bit_vector);
}

/// The flags of a page: bit 0 is always set, bit 1 if and only if the page can be written, bit 63
/// if and only if it cannot be executed, and no other bit is.
pub proof fn lemma_flag_bits(flags: PageFlags)
    ensures
        flag_word(flags) & 1 == 1,
        flag_word(flags) & 2 == 2 <==> flags.writable,
        flag_word(flags) & 0x8000_0000_0000_0000 == 0 <==> flags.executable,
        flag_word(flags) & 0x7FFF_FFFF_FFFF_FFFC == 0,
{
    let word = flag_word(flags);
    let writable = flags.writable;
    let executable = flags.executable;
    assert(word & 1 == 1 && (word & 2 == 2 <==> writable) && (word & 0x8000_0000_0000_0000 == 0
        <==> executable) && word & 0x7FFF_FFFF_FFFF_FFFC == 0) by (bit_vector)
        requires
            writable && executable ==> word == 3u64,
            writable && !executable ==> word == 0x8000_0000_0000_0003u64,
            !writable && executable ==> word == 1u64,
            !writable && !executable ==> word == 0x8000_0000_0000_0001u64,
    ;
}

/// What is read of a page table entry: the page can be written if and only if bit 1 is set, and
/// executed if and only if bit 63 is not.
pub proof fn lemma_read_flags(word: u64)
    ensures
        word_flags(word).writable <==> word & 2 != 0,
        word_flags(word).executable <==> word & 0x8000_0000_0000_0000 == 0,
{
}

/// Why the platform did not map a page.
#[derive(Clone, Copy, Debug, PartialEq, Eq, Structural)]
pub enum MapFailure {
    /// No frame was left for an intermediate page table.
    FrameAllocationFailed,
    /// A parent entry maps a larger page.
    ParentEntryHugePage,
    /// The page is already mapped.
    PageAlreadyMapped,
}

/// Why the platform did not change the flags of a page.
#[derive(Clone, Copy, Debug, PartialEq, Eq, Structural)]
pub enum FlagFailure {
    /// The page is not mapped.
    PageNotMapped,
    /// A parent entry maps a larger page.
    ParentEntryHugePage,
}

/// Why the platform did not unmap a page.
#[derive(Clone, Copy, Debug, PartialEq, Eq, Structural)]
pub enum UnmapFailure {
    /// A parent entry maps a larger page.
    ParentEntryHugePage,
    /// The page is not mapped.
    PageNotMapped,
    /// The entry holds no valid frame address.
    InvalidFrameAddress,
}

/// The error that reports a failure to map a page.
pub fn map_to_error(e: MapFailure) -> (r: MapError)
    ensures
        r == match e {
            MapFailure::FrameAllocationFailed => MapError::FrameAllocationFailed,
            MapFailure::ParentEntryHugePage => MapError::ParentEntryHugePage,
            MapFailure::PageAlreadyMapped => MapError::AlreadyMapped,
        },
{
    match e {
        MapFailure::FrameAllocationFailed => MapError::FrameAllocationFailed,
        MapFailure::ParentEntryHugePage => MapError::ParentEntryHugePage,
        MapFailure::PageAlreadyMapped => MapError::AlreadyMapped,
    }
}

/// The error that reports a failure to change flags.
pub fn update_flags_error(e: FlagFailure) -> (r: MapError)
    ensures
        r == match e {
            FlagFailure::PageNotMapped => MapError::NotMapped,
            FlagFailure::ParentEntryHugePage => MapError::ParentEntryHugePage,
        },
{
    match e {
        FlagFailure::PageNotMapped => MapError::NotMapped,
        FlagFailure::ParentEntryHugePage => MapError::ParentEntryHugePage,
    }
}

/// The error that reports a failure to unmap a page.
pub fn unmap_error(e: UnmapFailure) -> (r: UnmapError)
    ensures
        r == match e {
            UnmapFailure::ParentEntryHugePage => UnmapError::ParentEntryHugePage,
            UnmapFailure::PageNotMapped => UnmapError::NotMapped,
            UnmapFailure::InvalidFrameAddress => UnmapError::NotMapped,
        },
{
    match e {
        UnmapFailure::ParentEntryHugePage => UnmapError::ParentEntryHugePage,
        UnmapFailure::PageNotMapped => UnmapError::NotMapped,
        UnmapFailure::InvalidFrameAddress => UnmapError::NotMapped,
    }
}

/// Check that a page and a frame of the given size start at these addresses.
pub fn check_addresses(virt: VirtAddr, phys: PhysAddr, page_size: X86_64PageSize) -> (r: Result<
    (),
    MapError,
>)
    ensures
        r == if virt.0 % page_size.size() == 0 && phys.0 % page_size.size() == 0 {
            Ok::<(), MapError>(())
        } else {
            Err(MapError::InvalidAddress)
        },
{
    let size: u64 = page_size.bytes();
    if virt.as_u64() % size == 0 && phys.as_u64() % size == 0 {
        Ok(())
    } else {
        Err(MapError::InvalidAddress)
    }
}

/// The size of a frame that the platform found behind an address.
#[derive(Clone, Copy, Debug, PartialEq, Eq, Structural)]
pub enum FrameSize {
    /// A frame of 4 KiB.
    Size4KiB,
    /// A frame of 2 MiB.
    Size2MiB,
    /// A frame of 1 GiB.
    Size1GiB,
}

/// The page size under which a frame is reported. 1 GiB pages are not used, and are reported as
/// pages of the largest size that is.
pub open spec fn reported_size(size: FrameSize) -> X86_64PageSize {
    match size {
        FrameSize::Size4KiB => X86_64PageSize::Size4KiB,
        FrameSize::Size2MiB => X86_64PageSize::Size2MiB,
        FrameSize::Size1GiB => X86_64PageSize::Size2MiB,
    }
}

/// A frame is reported under the largest page size that is not larger than the frame.
pub proof fn lemma_reported_size(size: FrameSize)
    ensures
        ({
            let bytes: int = match size {
                FrameSize::Size4KiB => 0x1000,
                FrameSize::Size2MiB => 0x20_0000,
                FrameSize::Size1GiB => 0x4000_0000,
            };
            &&& reported_size(size).size() <= bytes
            &&& forall|page: X86_64PageSize| #[trigger]
                page.size() <= bytes ==> page.size() <= reported_size(size).size()
        }),
{
}

/// What a mapped address translates to: the address `offset` bytes into the frame, the flags of
/// the page, and its size.
pub fn translated(frame_start: u64, offset: u64, size: FrameSize, word: u64) -> (r: (
    PhysAddr,
    PageFlags,
    X86_64PageSize,
))
    requires
        frame_start + offset <= u64::MAX,
    ensures
        r == (PhysAddr((frame_start + offset) as u64), word_flags(word), reported_size(size)),
{
    let page_size = match size {
        FrameSize::Size4KiB => X86_64PageSize::Size4KiB,
        FrameSize::Size2MiB => X86_64PageSize::Size2MiB,
        FrameSize::Size1GiB => X86_64PageSize::Size2MiB,
    };
    (PhysAddr::new(frame_start + offset), from_x86_64_flags(word), page_size)
}

} // verus!
