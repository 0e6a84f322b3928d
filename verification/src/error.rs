//! Error types of the loader.

use vstd::prelude::*;

verus! {

/// Errors that can occur during kernel loading or region mapping.
#[derive(Debug)]
pub enum LoadError {
    /// ELF parsing failed.
    InvalidElf(&'static str),
    /// ELF type not supported (not ET_EXEC or ET_DYN).
    UnsupportedElfType(u16),
    /// The ELF's machine type is not supported for relocations.
    UnsupportedMachine(u16),
    /// Relocation type not supported.
    UnsupportedRelocation(u32),
    /// Frame allocator returned None.
    FrameAllocationFailed,
    /// Page table mapping operation failed.
    MappingFailed(MapError),
    /// Kernel ELF not page-aligned in physical memory.
    NotPageAligned,
    /// No free virtual address space for the requested mapping.
    AddressSpaceFull,
    /// Fixed placement for ET_EXEC kernel is not valid.
    InvalidPlacement,
    /// Too many copied pages during relocation handling.
    TooManyCopiedPages,
}

/// Errors from page table map operations.
#[derive(Clone, Copy, Debug, PartialEq, Eq, Structural)]
pub enum MapError {
    /// The page is already mapped.
    AlreadyMapped,
    /// Frame allocation failed while creating intermediate page tables.
    FrameAllocationFailed,
    /// The virtual or the physical address is not aligned to the page size.
    InvalidAddress,
    /// The page whose flags should change is not mapped.
    NotMapped,
    /// The address lies inside a larger page.
    ParentEntryHugePage,
}

/// Errors from page table unmap operations.
#[derive(Clone, Copy, Debug, PartialEq, Eq, Structural)]
pub enum UnmapError {
    /// The page is not mapped.
    NotMapped,
    /// The address lies inside a larger page.
    ParentEntryHugePage,
}

impl From<MapError> for LoadError {
    fn from(e: MapError) -> (r: Self) {
        LoadError::MappingFailed(e)
    }
}

impl vstd::std_specs::convert::FromSpecImpl<MapError> for LoadError {
    open spec fn obeys_from_spec() -> bool {
        true
    }

    open spec fn from_spec(e: MapError) -> Self {
        LoadError::MappingFailed(e)
    }
}

/// The text of one digit.
pub open spec fn digit_text(digit: u64) -> Seq<char> {
    match digit {
        0 => "0"@,
        1 => "1"@,
        2 => "2"@,
        3 => "3"@,
        4 => "4"@,
        5 => "5"@,
        6 => "6"@,
        7 => "7"@,
        8 => "8"@,
        9 => "9"@,
        10 => "a"@,
        11 => "b"@,
        12 => "c"@,
        13 => "d"@,
        14 => "e"@,
        _ => "f"@,
    }
}

/// The text of a number, most significant digit first.
pub open spec fn number_text(value: u64, base: u64) -> Seq<char>
    decreases value,
{
    if value < base || base < 2 {
        digit_text(value)
    } else {
        proof {
            vstd::arithmetic::div_mod::lemma_div_decreases(value as int, base as int);
        }
        number_text(value / base, base) + digit_text(value % base)
    }
}

/// The text of a mapping error: its name.
pub open spec fn map_error_text(e: MapError) -> Seq<char> {
    match e {
        MapError::AlreadyMapped => "AlreadyMapped"@,
        MapError::FrameAllocationFailed => "FrameAllocationFailed"@,
        MapError::InvalidAddress => "InvalidAddress"@,
        MapError::NotMapped => "NotMapped"@,
        MapError::ParentEntryHugePage => "ParentEntryHugePage"@,
    }
}

/// The text of an error, for display.
pub open spec fn load_error_text(e: LoadError) -> Seq<char> {
    match e {
        LoadError::InvalidElf(msg) => "invalid ELF: "@ + msg@,
        LoadError::UnsupportedElfType(ty) => "unsupported ELF type: "@ + number_text(
            ty as u64,
            10,
        ),
        LoadError::UnsupportedMachine(m) => "unsupported ELF machine type: "@ + number_text(
            m as u64,
            10,
        ),
        LoadError::UnsupportedRelocation(ty) => "unsupported relocation type: 0x"@ + number_text(
            ty as u64,
            16,
        ),
        LoadError::FrameAllocationFailed => "frame allocation failed"@,
        LoadError::MappingFailed(e) => "page table mapping failed: "@ + map_error_text(e),
        LoadError::NotPageAligned => "kernel ELF not page-aligned in physical memory"@,
        LoadError::AddressSpaceFull => "no free virtual address space"@,
        LoadError::InvalidPlacement => "invalid kernel placement"@,
        LoadError::TooManyCopiedPages => "too many CoW pages during relocations"@,
    }
}

/// The text of one digit.
fn digit(value: u64) -> (r: &'static str)
    requires
        value < 16,
    ensures
        r@ == digit_text(value),
{
    match value {
        0 => "0",
        1 => "1",
        2 => "2",
        3 => "3",
        4 => "4",
        5 => "5",
        6 => "6",
        7 => "7",
        8 => "8",
        9 => "9",
        10 => "a",
        11 => "b",
        12 => "c",
        13 => "d",
        14 => "e",
        _ => "f",
    }
}

/// Append the text of a number.
fn append_number(text: &mut String, value: u64, base: u64)
    requires
        2 <= base <= 16,
    ensures
        final(text)@ == old(text)@ + number_text(value, base),
    decreases value,
{
    if value >= base {
        proof {
            vstd::arithmetic::div_mod::lemma_div_decreases(value as int, base as int);
        }
        append_number(text, value / base, base);
    }
    let ghost before = text@;
    text.append(digit(value % base));
    proof {
        if value < base {
            vstd::arithmetic::div_mod::lemma_small_mod(value as nat, base as nat);
        }
        assert(text@ =~= before + digit_text(value % base));
    }
}

impl LoadError {
    /// The text of this error, for display.
    pub fn message(&self) -> (r: String)
        ensures
            r@ == load_error_text(*self),
    {
        let mut text = String::new();
        match self {
            LoadError::InvalidElf(msg) => {
                text.append("invalid ELF: ");
                text.append(msg);
            },
            LoadError::UnsupportedElfType(ty) => {
                text.append("unsupported ELF type: ");
                append_number(&mut text, *ty as u64, 10);
            },
            LoadError::UnsupportedMachine(m) => {
                text.append("unsupported ELF machine type: ");
                append_number(&mut text, *m as u64, 10);
            },
            LoadError::UnsupportedRelocation(ty) => {
                text.append("unsupported relocation type: 0x");
                append_number(&mut text, *ty as u64, 16);
            },
            LoadError::FrameAllocationFailed => {
                text.append("frame allocation failed");
            },
            LoadError::MappingFailed(e) => {
                text.append("page table mapping failed: ");
                text.append(e.name());
            },
            LoadError::NotPageAligned => {
                text.append("kernel ELF not page-aligned in physical memory");
            },
            LoadError::AddressSpaceFull => {
                text.append("no free virtual address space");
            },
            LoadError::InvalidPlacement => {
                text.append("invalid kernel placement");
            },
            LoadError::TooManyCopiedPages => {
                text.append("too many CoW pages during relocations");
            },
        }
        assert(text@ =~= load_error_text(*self));
        text
    }
}

impl MapError {
    /// The name of this error.
    pub fn name(&self) -> (r: &'static str)
        ensures
            r@ == map_error_text(*self),
    {
        match self {
            MapError::AlreadyMapped => "AlreadyMapped",
            MapError::FrameAllocationFailed => "FrameAllocationFailed",
            MapError::InvalidAddress => "InvalidAddress",
            MapError::NotMapped => "NotMapped",
            MapError::ParentEntryHugePage => "ParentEntryHugePage",
        }
    }
}

} // verus!
