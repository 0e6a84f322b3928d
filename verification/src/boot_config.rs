//! The configuration that a kernel hands to its bootloader.

use crate::elf_file;
use crate::elf_file::{SectionLookup, SHF_COMPRESSED, SHT_NOBITS};
use crate::loader::{KernelPlacement, RegionPlacement};
use crate::traits::VirtAddr;
use vstd::prelude::*;

verus! {

/// Where a mapping goes.
#[derive(Clone, Copy, Debug, PartialEq, Eq, Structural)]
pub enum Mapping {
    /// Look for an unused virtual memory region at runtime.
    Dynamic,
    /// Map at the given virtual address.
    FixedAddress(u64),
}

/// The mappings that a kernel asks for.
#[derive(Clone, Copy, Debug, PartialEq, Eq, Structural)]
pub struct MappingConfig {
    /// Where the kernel stack goes.
    pub kernel_stack: Mapping,
    /// Where the kernel itself goes.
    pub kernel_base: Mapping,
    /// Where the boot info goes.
    pub boot_info: Mapping,
    /// Where the framebuffer goes.
    pub framebuffer: Mapping,
    /// Whether and where physical memory is mapped.
    pub physical_memory: Option<Mapping>,
    /// Whether and where the page tables are mapped recursively.
    pub page_table_recursive: Option<Mapping>,
    /// Whether addresses are chosen at random.
    pub aslr: bool,
    /// The lowest address for dynamic mappings.
    pub dynamic_range_start: Option<u64>,
    /// The highest address for dynamic mappings.
    pub dynamic_range_end: Option<u64>,
    /// Where the ramdisk goes.
    pub ramdisk_memory: Mapping,
}

/// The bootloader configuration of a kernel.
#[derive(Clone, Copy, Debug, PartialEq, Eq, Structural)]
pub struct BootloaderConfig {
    /// The mappings that the kernel asks for.
    pub mappings: MappingConfig,
    /// The size of the kernel stack in bytes.
    pub kernel_stack_size: u64,
}

/// The configuration that `bootloader_api::BootloaderConfig::deserialize` reads from the bytes
/// of a configuration section, or `None` where it rejects them.
pub uninterp spec fn deserialized(raw: Seq<u8>) -> Option<BootloaderConfig>;

/// Reads a configuration with `bootloader_api::BootloaderConfig::deserialize`.
///
/// Taken on trust: the result depends on the bytes alone, and is called `deserialized`.
#[verifier::external_body]
fn deserialize_config(raw: &[u8]) -> (r: Option<BootloaderConfig>)
    ensures
        r == deserialized(raw@),
{
    let config = bootloader_api::BootloaderConfig::deserialize(raw).ok()?;
    let place = |mapping| match mapping {
        bootloader_api::config::Mapping::Dynamic => Mapping::Dynamic,
        bootloader_api::config::Mapping::FixedAddress(addr) => Mapping::FixedAddress(addr),
    };
    let m = config.mappings;
    let mappings = MappingConfig {
        kernel_stack: place(m.kernel_stack), kernel_base: place(m.kernel_base),
        boot_info: place(m.boot_info), framebuffer: place(m.framebuffer), aslr: m.aslr,
        physical_memory: m.physical_memory.map(place), ramdisk_memory: place(m.ramdisk_memory),
        page_table_recursive: m.page_table_recursive.map(place),
        dynamic_range_start: m.dynamic_range_start, dynamic_range_end: m.dynamic_range_end,
    };
    Some(BootloaderConfig { mappings, kernel_stack_size: config.kernel_stack_size })
}

/// The placement of a region for a mapping.
pub open spec fn region_placement(mapping: Mapping) -> RegionPlacement {
    match mapping {
        Mapping::Dynamic => RegionPlacement::Auto,
        Mapping::FixedAddress(addr) => RegionPlacement::Fixed(VirtAddr(addr)),
    }
}

/// The placement of the kernel for a mapping.
pub open spec fn kernel_placement(mapping: Mapping) -> KernelPlacement {
    match mapping {
        Mapping::Dynamic => KernelPlacement::Auto,
        Mapping::FixedAddress(addr) => KernelPlacement::Fixed(VirtAddr(addr)),
    }
}

/// Convert a [`Mapping`] to a [`RegionPlacement`].
pub fn mapping_to_placement(mapping: Mapping) -> (r: RegionPlacement)
    ensures
        r == region_placement(mapping),
{
    match mapping {
        Mapping::Dynamic => RegionPlacement::Auto,
        Mapping::FixedAddress(addr) => RegionPlacement::Fixed(VirtAddr::new(addr)),
    }
}

/// Convert a [`Mapping`] to a [`KernelPlacement`].
pub fn mapping_to_kernel_placement(mapping: Mapping) -> (r: KernelPlacement)
    ensures
        r == kernel_placement(mapping),
{
    match mapping {
        Mapping::Dynamic => KernelPlacement::Auto,
        Mapping::FixedAddress(addr) => KernelPlacement::Fixed(VirtAddr::new(addr)),
    }
}

/// The name of the section that holds the configuration.
pub open spec fn config_section() -> Seq<char> {
    ".bootloader-config"@
}

/// Why a file is no kernel for this bootloader.
#[derive(Clone, Copy, Debug, PartialEq, Eq, Structural)]
pub enum KernelError {
    /// The file is no valid ELF file.
    InvalidElf,
    /// The section headers cannot be read.
    UnreadableSections,
    /// The file has no configuration section.
    NoConfig,
    /// The configuration section lies outside the file.
    UnreadableConfig,
    /// The configuration is of another version.
    IncompatibleConfig,
}

/// The configuration in a kernel file, or why there is none: given whether it is an ELF file,
/// what looking for the section gave, whether its bytes can be read, and what they hold.
pub open spec fn config_found(
    is_elf: bool,
    section: SectionLookup,
    readable: bool,
    config: Option<BootloaderConfig>,
) -> Result<BootloaderConfig, KernelError> {
    if !is_elf {
        Err(KernelError::InvalidElf)
    } else if section is Unreadable {
        Err(KernelError::UnreadableSections)
    } else if section is Absent {
        Err(KernelError::NoConfig)
    } else if !readable {
        Err(KernelError::UnreadableConfig)
    } else {
        match config {
            Some(config) => Ok(config),
            None => Err(KernelError::IncompatibleConfig),
        }
    }
}

/// A configuration is found if and only if the file is an ELF file with a readable configuration
/// section of this version, and then it is the one that the section holds. Otherwise the first
/// thing that is missing is reported.
pub proof fn lemma_config_found(
    is_elf: bool,
    section: SectionLookup,
    readable: bool,
    config: Option<BootloaderConfig>,
)
    ensures
        config_found(is_elf, section, readable, config) is Ok <==> is_elf && section is Found
            && readable && config is Some,
        config_found(is_elf, section, readable, config) matches Ok(found) ==> config == Some(found),
        config_found(is_elf, section, readable, config) matches Err(e) ==> match e {
            KernelError::InvalidElf => !is_elf,
            KernelError::UnreadableSections => is_elf && section is Unreadable,
            KernelError::NoConfig => is_elf && section is Absent,
            KernelError::UnreadableConfig => is_elf && section is Found && !readable,
            KernelError::IncompatibleConfig => is_elf && section is Found && readable
                && config is None,
        },
{
}

/// Decide on the configuration of a kernel from what was read of its file.
pub fn check_config(
    is_elf: bool,
    section: SectionLookup,
    readable: bool,
    config: Option<BootloaderConfig>,
) -> (r: Result<BootloaderConfig, KernelError>)
    ensures
        r == config_found(is_elf, section, readable, config),
{
    if !is_elf {
        return Err(KernelError::InvalidElf);
    }
    match section {
        SectionLookup::Unreadable => Err(KernelError::UnreadableSections),
        SectionLookup::Absent => Err(KernelError::NoConfig),
        SectionLookup::Found(_) => {
            if !readable {
                return Err(KernelError::UnreadableConfig);
            }
            match config {
                Some(config) => Ok(config),
                None => Err(KernelError::IncompatibleConfig),
            }
        },
    }
}

/// The bytes of the configuration section of a kernel file.
pub open spec fn config_bytes(bytes: Seq<u8>) -> Option<Seq<u8>> {
    match elf_file::elf_section(bytes, config_section()) {
        SectionLookup::Found(header) => elf_file::elf_section_data(bytes, header),
        _ => None,
    }
}

/// The configuration in a kernel file, or why there is none.
pub open spec fn kernel_config(bytes: Seq<u8>) -> Result<BootloaderConfig, KernelError> {
    config_found(
        elf_file::elf_header(bytes) is Some,
        elf_file::elf_section(bytes, config_section()),
        config_bytes(bytes) is Some,
        match config_bytes(bytes) {
            Some(raw) => deserialized(raw),
            None => None,
        },
    )
}

/// The configuration is what the bytes of the configuration section say, as they stand in the
/// file. A compressed section is not read as it stands.
pub open spec fn stands_in_file(bytes: Seq<u8>, config: BootloaderConfig) -> bool {
    elf_file::elf_section(bytes, config_section()) matches SectionLookup::Found(header) && (
    header.sh_type != SHT_NOBITS && header.sh_flags & SHF_COMPRESSED == 0
        ==> elf_file::section_range(bytes, header) is Some && deserialized(
        elf_file::section_range(bytes, header).unwrap(),
    ) == Some(config))
}

/// Read the configuration from the `.bootloader-config` section of a kernel file.
fn read_config(bytes: &[u8]) -> (r: Result<BootloaderConfig, KernelError>)
    ensures
        r == kernel_config(bytes@),
        r matches Ok(config) ==> stands_in_file(bytes@, config),
{
    let is_elf = elf_file::is_elf(bytes);
    let section = elf_file::find_section(bytes, ".bootloader-config");
    let raw = match section {
        SectionLookup::Found(header) => elf_file::read_section(bytes, header),
        _ => None,
    };
    match raw {
        Some(raw) => check_config(is_elf, section, true, deserialize_config(&raw)),
        None => check_config(is_elf, section, false, None),
    }
}

/// Parsed kernel ELF with embedded bootloader configuration.
#[derive(Clone, Copy, Debug)]
pub struct Kernel<'a> {
    /// The bootloader configuration extracted from the kernel ELF.
    pub config: BootloaderConfig,
    /// Raw kernel ELF bytes.
    pub elf_bytes: &'a [u8],
}

impl<'a> Kernel<'a> {
    /// Extract the configuration from a kernel file that has one.
    pub fn parse(kernel_slice: &'a [u8]) -> (r: Self)
        requires
            kernel_config(kernel_slice@) is Ok,
        ensures
            Ok::<BootloaderConfig, KernelError>(r.config) == kernel_config(kernel_slice@),
            r.elf_bytes@ == kernel_slice@,
            stands_in_file(kernel_slice@, r.config),
    {
        match read_config(kernel_slice) {
            Ok(config) => Kernel { config, elf_bytes: kernel_slice },
            Err(_) => vstd::pervasive::unreached(),
        }
    }

    /// Extract the configuration from a file that may be no kernel.
    pub fn try_parse(kernel_slice: &'a [u8]) -> (r: Result<Self, KernelError>)
        ensures
            match kernel_config(kernel_slice@) {
                Ok(config) => {
                    &&& r is Ok
                    &&& r.unwrap().config == config
                    &&& r.unwrap().elf_bytes@ == kernel_slice@
                    &&& stands_in_file(kernel_slice@, config)
                },
                Err(e) => r == Err::<Self, KernelError>(e),
            },
    {
        match read_config(kernel_slice) {
            Ok(_) => Ok(Kernel::parse(kernel_slice)),
            Err(e) => Err(e),
        }
    }
}

} // verus!
