use elf::abi;
use kernel_elf_loader::boot::{
    reserve_ranges, set_up_mappings, AslrWords, BootEnvironment, RawFrameBufferInfo, SetUpError,
    SystemInfo,
};
use kernel_elf_loader::boot_config::{
    check_config, mapping_to_kernel_placement, mapping_to_placement, BootloaderConfig, Kernel,
    KernelError, Mapping, MappingConfig,
};
use kernel_elf_loader::boot_info::{
    boot_info_fields, map_boot_info, place_boot_info, recursive_index, BootInfoError,
    BootInfoFields, RecursiveError,
};
use kernel_elf_loader::elf_file::{SectionHeader, SectionLookup};
use kernel_elf_loader::x86_bridge::X86PageSize;
use kernel_elf_loader::{
    AddressSpace, FrameAllocator, KernelPlacement, LoadError, MapError, PageFlags, PageSize,
    PageTable, PhysAddr, PhysicalMemoryAccess, RegionPlacement, TlsTemplate, UnmapError, VirtAddr,
};
use std::collections::{BTreeMap, HashMap};

/// A page table in which every mapped page is listed by its start.
struct Table {
    entries: BTreeMap<u64, (u64, PageFlags, X86PageSize)>,
    maps_left: usize,
}

impl Table {
    fn new() -> Self {
        Table { entries: BTreeMap::new(), maps_left: usize::MAX }
    }

    fn find(&self, virt: u64) -> Option<(u64, u64, PageFlags, X86PageSize)> {
        let (&start, &(phys, flags, size)) = self.entries.range(..=virt).next_back()?;
        if virt - start < size.bytes() {
            Some((start, phys, flags, size))
        } else {
            None
        }
    }

    fn flags(&self, virt: u64) -> (bool, bool) {
        let (_, _, flags, _) = self.find(virt).unwrap();
        (flags.writable, flags.executable)
    }
}

impl PageTable<X86PageSize> for Table {
    fn map<A: FrameAllocator<X86PageSize>>(
        &mut self,
        virt: VirtAddr,
        phys: PhysAddr,
        page_size: X86PageSize,
        flags: PageFlags,
        _allocator: &mut A,
    ) -> Result<(), MapError> {
        let bytes = page_size.bytes();
        if virt.as_u64() % bytes != 0 || phys.as_u64() % bytes != 0 {
            return Err(MapError::InvalidAddress);
        }
        if self.maps_left == 0 {
            return Err(MapError::FrameAllocationFailed);
        }
        let mut page = virt.as_u64();
        while page < virt.as_u64() + bytes {
            if self.find(page).is_some() {
                return Err(MapError::AlreadyMapped);
            }
            page += 0x1000;
        }
        self.maps_left -= 1;
        self.entries.insert(virt.as_u64(), (phys.as_u64(), flags, page_size));
        Ok(())
    }

    fn update_flags(&mut self, virt: VirtAddr, flags: PageFlags) -> Result<(), MapError> {
        match self.entries.get_mut(&virt.as_u64()) {
            Some(entry) if entry.2 == X86PageSize::Size4KiB => {
                entry.1 = flags;
                Ok(())
            }
            Some(_) => Err(MapError::ParentEntryHugePage),
            None => Err(MapError::NotMapped),
        }
    }

    fn unmap(&mut self, virt: VirtAddr) -> Result<(PhysAddr, X86PageSize), UnmapError> {
        match self.entries.get(&virt.as_u64()) {
            Some(&(phys, _, X86PageSize::Size4KiB)) => {
                self.entries.remove(&virt.as_u64());
                Ok((PhysAddr::new(phys), X86PageSize::Size4KiB))
            }
            Some(_) => Err(UnmapError::ParentEntryHugePage),
            None => Err(UnmapError::NotMapped),
        }
    }

    fn translate(&self, virt: VirtAddr) -> Option<(PhysAddr, PageFlags, X86PageSize)> {
        let (start, phys, flags, size) = self.find(virt.as_u64())?;
        Some((PhysAddr::new(phys + (virt.as_u64() - start)), flags, size))
    }
}

/// Hands out the 4 KiB frames of one range, one after another.
struct Frames {
    next: u64,
    end: u64,
}

impl FrameAllocator<X86PageSize> for Frames {
    fn allocate_frame(&mut self, size: X86PageSize) -> Option<PhysAddr> {
        if size != X86PageSize::Size4KiB || self.next >= self.end {
            return None;
        }
        let frame = self.next;
        self.next += 0x1000;
        Some(PhysAddr::new(frame))
    }
}

/// Physical memory in which a byte that was never written is 0xEE.
struct Memory {
    bytes: HashMap<u64, u8>,
}

impl Memory {
    fn get(&self, addr: u64) -> u8 {
        *self.bytes.get(&addr).unwrap_or(&0xEE)
    }

    fn put(&mut self, addr: u64, data: &[u8]) {
        for (i, byte) in data.iter().enumerate() {
            self.bytes.insert(addr + i as u64, *byte);
        }
    }
}

impl PhysicalMemoryAccess for Memory {
    fn read_phys(&self, addr: PhysAddr, buf: &mut [u8]) {
        for (i, byte) in buf.iter_mut().enumerate() {
            *byte = self.get(addr.as_u64() + i as u64);
        }
    }

    fn write_phys(&mut self, addr: PhysAddr, buf: &[u8]) {
        self.put(addr.as_u64(), buf);
    }

    fn zero_phys(&mut self, addr: PhysAddr, len: u64) {
        self.put(addr.as_u64(), &vec![0; len as usize]);
    }

    fn copy_phys(&mut self, src: PhysAddr, dst: PhysAddr, len: u64) {
        let mut buf = vec![0; len as usize];
        self.read_phys(src, &mut buf);
        self.put(dst.as_u64(), &buf);
    }
}

/// The three platform objects.
struct Platform {
    table: Table,
    frames: Frames,
    memory: Memory,
}

impl Platform {
    fn new() -> Self {
        Platform {
            table: Table::new(),
            frames: Frames { next: FRAMES, end: FRAMES + 0x100_0000 },
            memory: Memory { bytes: HashMap::new() },
        }
    }

    fn with_file(file: &[u8]) -> Self {
        let mut platform = Platform::new();
        platform.memory.put(KERNEL, file);
        platform
    }

    fn byte(&self, virt: u64) -> u8 {
        let (phys, _, _) = self.table.translate(VirtAddr::new(virt)).unwrap();
        self.memory.get(phys.as_u64())
    }

    fn file_is_unchanged(&self, file: &[u8]) -> bool {
        (0..file.len()).all(|i| self.memory.get(KERNEL + i as u64) == file[i])
    }
}

/// Physical address of the kernel file.
const KERNEL: u64 = 0x10_0000;

/// Physical address of the first free frame.
const FRAMES: u64 = 0x4000_0000;

#[derive(Clone, Copy)]
struct Segment {
    p_type: u32,
    p_flags: u32,
    p_offset: u64,
    p_vaddr: u64,
    p_filesz: u64,
    p_memsz: u64,
    p_align: u64,
}

fn load(p_flags: u32, p_offset: u64, p_vaddr: u64, p_filesz: u64, p_memsz: u64) -> Segment {
    Segment { p_type: abi::PT_LOAD, p_flags, p_offset, p_vaddr, p_filesz, p_memsz, p_align: 0x1000 }
}

fn other(p_type: u32, p_offset: u64, p_vaddr: u64, p_filesz: u64, p_memsz: u64) -> Segment {
    Segment { p_type, p_flags: abi::PF_R, p_offset, p_vaddr, p_filesz, p_memsz, p_align: 8 }
}

/// A 64-bit little-endian ELF file of `len` bytes with the given program headers. The bytes
/// from 0x1000 on count up.
fn elf_file(e_type: u16, e_machine: u16, e_entry: u64, segments: &[Segment], len: usize) -> Vec<u8> {
    let mut file = vec![0x7f, b'E', b'L', b'F', 2, 1, 1, 0, 0, 0, 0, 0, 0, 0, 0, 0];
    file.extend(e_type.to_le_bytes());
    file.extend(e_machine.to_le_bytes());
    file.extend(1u32.to_le_bytes());
    file.extend(e_entry.to_le_bytes());
    file.extend((if segments.is_empty() { 0u64 } else { 64 }).to_le_bytes());
    file.extend(0u64.to_le_bytes());
    file.extend(0u32.to_le_bytes());
    for half in [64u16, 56, segments.len() as u16, 64, 0, 0] {
        file.extend(half.to_le_bytes());
    }
    for s in segments {
        file.extend(s.p_type.to_le_bytes());
        file.extend(s.p_flags.to_le_bytes());
        for word in [s.p_offset, s.p_vaddr, s.p_vaddr, s.p_filesz, s.p_memsz, s.p_align] {
            file.extend(word.to_le_bytes());
        }
    }
    file.resize(0x1000.min(len), 0);
    while file.len() < len {
        file.push((file.len() % 251) as u8);
    }
    file
}

/// Adds the section headers of a kernel: no section, `.bootloader-config` with the given bytes,
/// and the section names.
fn with_config(mut file: Vec<u8>, config: &[u8]) -> Vec<u8> {
    let names = b"\0.bootloader-config\0.shstrtab\0";
    let config_offset = file.len() as u64;
    file.extend(config);
    let names_offset = file.len() as u64;
    file.extend(names);
    while file.len() % 8 != 0 {
        file.push(0);
    }
    let headers_offset = file.len() as u64;
    let sections = [
        (0u32, 0u32, 0u64, 0u64),
        (1, abi::SHT_PROGBITS, config_offset, config.len() as u64),
        (20, abi::SHT_STRTAB, names_offset, names.len() as u64),
    ];
    for (sh_name, sh_type, sh_offset, sh_size) in sections {
        file.extend(sh_name.to_le_bytes());
        file.extend(sh_type.to_le_bytes());
        for word in [0, 0, sh_offset, sh_size] {
            file.extend(word.to_le_bytes());
        }
        file.extend(0u64.to_le_bytes());
        file.extend(1u64.to_le_bytes());
        file.extend(0u64.to_le_bytes());
    }
    file[40..48].copy_from_slice(&headers_offset.to_le_bytes());
    file[60..62].copy_from_slice(&3u16.to_le_bytes());
    file[62..64].copy_from_slice(&2u16.to_le_bytes());
    file
}

fn kernel_file(config: &bootloader_api::BootloaderConfig) -> Vec<u8> {
    let segments = [
        load(abi::PF_R | abi::PF_X, 0x1000, 0x1000, 0x1000, 0x1000),
        load(abi::PF_R | abi::PF_W, 0x2000, 0x2000, 0x800, 0x1800),
        other(abi::PT_TLS, 0x2000, 0x2000, 0x10, 0x20),
    ];
    let file = elf_file(abi::ET_DYN, abi::EM_X86_64, 0x1040, &segments, 0x2800);
    with_config(file, &config.serialize())
}

fn api_config() -> bootloader_api::BootloaderConfig {
    bootloader_api::BootloaderConfig::new_default()
}

#[test]
fn a_kernel_file_holds_its_configuration() {
    let mut api = api_config();
    api.kernel_stack_size = 0x5000;
    api.mappings.kernel_stack = bootloader_api::config::Mapping::FixedAddress(0x11_0000);
    api.mappings.kernel_base = bootloader_api::config::Mapping::FixedAddress(0x22_0000);
    api.mappings.boot_info = bootloader_api::config::Mapping::FixedAddress(0x33_0000);
    api.mappings.framebuffer = bootloader_api::config::Mapping::FixedAddress(0x44_0000);
    api.mappings.physical_memory =
        Some(bootloader_api::config::Mapping::FixedAddress(0x55_0000));
    api.mappings.page_table_recursive = Some(bootloader_api::config::Mapping::Dynamic);
    api.mappings.aslr = true;
    api.mappings.dynamic_range_start = Some(0x66_0000);
    api.mappings.dynamic_range_end = Some(0x77_0000);
    api.mappings.ramdisk_memory = bootloader_api::config::Mapping::FixedAddress(0x88_0000);
    let file = kernel_file(&api);
    let kernel = Kernel::parse(&file);
    assert_eq!(
        kernel.config,
        BootloaderConfig {
            mappings: MappingConfig {
                kernel_stack: Mapping::FixedAddress(0x11_0000),
                kernel_base: Mapping::FixedAddress(0x22_0000),
                boot_info: Mapping::FixedAddress(0x33_0000),
                framebuffer: Mapping::FixedAddress(0x44_0000),
                physical_memory: Some(Mapping::FixedAddress(0x55_0000)),
                page_table_recursive: Some(Mapping::Dynamic),
                aslr: true,
                dynamic_range_start: Some(0x66_0000),
                dynamic_range_end: Some(0x77_0000),
                ramdisk_memory: Mapping::FixedAddress(0x88_0000),
            },
            kernel_stack_size: 0x5000,
        }
    );
    assert_eq!(kernel.elf_bytes, &file[..]);
    let default_file = kernel_file(&api_config());
    let default = Kernel::try_parse(&default_file).unwrap().config;
    assert_eq!(default.kernel_stack_size, 80 * 1024);
    assert_eq!(default.mappings.kernel_base, Mapping::Dynamic);
    assert_eq!(default.mappings.physical_memory, None);
    assert!(!default.mappings.aslr);
}

#[test]
fn files_without_a_configuration_are_rejected() {
    let error = |file: &[u8]| Kernel::try_parse(file).err();
    assert_eq!(error(b"not an ELF file"), Some(KernelError::InvalidElf));
    let bare = elf_file(abi::ET_DYN, abi::EM_X86_64, 0, &[], 0x1000);
    assert_eq!(error(&bare), Some(KernelError::NoConfig));
    let file = kernel_file(&api_config());
    // The index of the section names is out of range.
    let mut unreadable = file.clone();
    unreadable[62..64].copy_from_slice(&9u16.to_le_bytes());
    assert_eq!(error(&unreadable), Some(KernelError::UnreadableSections));
    // The section reaches past the end of the file.
    let headers = u64::from_le_bytes(file[40..48].try_into().unwrap()) as usize;
    let mut outside = file.clone();
    outside[headers + 64 + 32..headers + 64 + 40].copy_from_slice(&0x10_0000u64.to_le_bytes());
    assert_eq!(error(&outside), Some(KernelError::UnreadableConfig));
    // The configuration is cut off.
    let mut short = file.clone();
    short[headers + 64 + 32..headers + 64 + 40].copy_from_slice(&8u64.to_le_bytes());
    assert_eq!(error(&short), Some(KernelError::IncompatibleConfig));
    assert_eq!(error(&file), None);
}

#[test]
fn what_was_read_decides_on_the_configuration() {
    let file = kernel_file(&api_config());
    let config = Kernel::parse(&file).config;
    let found = SectionLookup::Found(SectionHeader {
        sh_name: 1,
        sh_type: 1,
        sh_flags: 0,
        sh_addr: 0,
        sh_offset: 0,
        sh_size: 0,
        sh_link: 0,
        sh_info: 0,
        sh_addralign: 1,
        sh_entsize: 0,
    });
    assert_eq!(check_config(true, found, true, Some(config)), Ok(config));
    assert_eq!(check_config(true, found, true, None), Err(KernelError::IncompatibleConfig));
    assert_eq!(check_config(true, found, false, None), Err(KernelError::UnreadableConfig));
    assert_eq!(
        check_config(true, SectionLookup::Absent, false, None),
        Err(KernelError::NoConfig)
    );
    assert_eq!(
        check_config(true, SectionLookup::Unreadable, false, None),
        Err(KernelError::UnreadableSections)
    );
    assert_eq!(check_config(false, found, true, Some(config)), Err(KernelError::InvalidElf));
}

#[test]
fn mappings_become_placements() {
    assert_eq!(mapping_to_placement(Mapping::Dynamic), RegionPlacement::Auto);
    assert_eq!(
        mapping_to_placement(Mapping::FixedAddress(7)),
        RegionPlacement::Fixed(VirtAddr::new(7))
    );
    assert_eq!(mapping_to_kernel_placement(Mapping::Dynamic), KernelPlacement::Auto);
    assert_eq!(
        mapping_to_kernel_placement(Mapping::FixedAddress(7)),
        KernelPlacement::Fixed(VirtAddr::new(7))
    );
}

#[test]
fn reserved_ranges_are_not_free() {
    let mut config = Kernel::parse(&kernel_file(&api_config())).config;
    config.kernel_stack_size = 0x4000;
    config.mappings.kernel_stack = Mapping::FixedAddress(0x200_0000_0000);
    config.mappings.page_table_recursive = Some(Mapping::FixedAddress(0x300_0000_1234));
    config.mappings.dynamic_range_start = Some(0x100_0000_0000);
    config.mappings.dynamic_range_end = Some(0x380_0000_0000);
    let framebuffer = RawFrameBufferInfo { addr: PhysAddr::new(0x101_0000_0000), byte_len: 0x1000 };
    let mut space = AddressSpace::new();
    reserve_ranges(&mut space, &config, Some(framebuffer), PhysAddr::new(0x1234), 0x10);
    // Below 1 TiB, the framebuffer, the stack with its guard page, the entry of the recursive
    // mapping, which touches what lies above the dynamic range.
    assert_eq!(space.region_count(), 4);
    assert_eq!(space.find_free(0x1000, 0x1000, None), Some(VirtAddr::new(0x100_0000_0000)));
    assert_eq!(
        space.find_free(0x1000, 0x100_0000_0000, None),
        None
    );
    let mut space = AddressSpace::new();
    config.mappings.dynamic_range_start = None;
    reserve_ranges(&mut space, &config, None, PhysAddr::new(0x80_0000_0001), 0x10);
    assert_eq!(space.find_free(0x1000, 0x1000, None), Some(VirtAddr::new(0x100_0000_0000)));
    assert_eq!(space.find_free(0x1000, 0x200_0000_0000, None), None);
}

fn environment() -> BootEnvironment {
    BootEnvironment {
        max_phys: PhysAddr::new(0x40_3000),
        boot_info_size: 0x100,
        kernel_start: PhysAddr::new(KERNEL),
        kernel_reserved: 0x3000,
        context_switch: PhysAddr::new(0x7_0123),
        rng: None,
    }
}

fn no_devices() -> SystemInfo {
    SystemInfo { framebuffer: None, rsdp_addr: None, ramdisk_addr: None, ramdisk_len: 0 }
}

#[test]
fn a_boot_maps_everything_that_the_kernel_asks_for() {
    let mut api = api_config();
    api.kernel_stack_size = 0x2008;
    api.mappings.physical_memory = Some(bootloader_api::config::Mapping::Dynamic);
    api.mappings.ramdisk_memory = bootloader_api::config::Mapping::FixedAddress(0x900_0000_0000);
    let file = kernel_file(&api);
    let mut platform = Platform::with_file(&file);
    platform.memory.put(0x9000, b"disk");
    let info = SystemInfo {
        framebuffer: Some(RawFrameBufferInfo { addr: PhysAddr::new(0xB000), byte_len: 0x1800 }),
        rsdp_addr: Some(PhysAddr::new(0xE0000)),
        ramdisk_addr: Some(0x9000),
        ramdisk_len: 4,
    };
    let regions = set_up_mappings(
        &Kernel::parse(&file),
        &info,
        &environment(),
        &mut platform.table,
        &mut platform.frames,
        &mut platform.memory,
    )
    .unwrap();
    let config = Kernel::parse(&file).config;
    let mappings = regions.with_recursive_index(&config, &[false; 512]).unwrap();
    // Everything starts behind the identity mapping, which ends at 512 GiB.
    let start = 0x80_0000_0000u64;
    assert_eq!(mappings.entry_point, VirtAddr::new(start + 0x40));
    assert_eq!(mappings.kernel_image_offset, VirtAddr::new(start - 0x1000));
    assert_eq!(
        mappings.tls_template,
        Some(TlsTemplate { start_addr: VirtAddr::new(start + 0x1000), file_size: 0x10, mem_size: 0x20 })
    );
    // The kernel has three pages; the guard page is the fourth.
    assert_eq!(mappings.stack_bottom, VirtAddr::new(start + 0x4000));
    assert_eq!(mappings.stack_top, VirtAddr::new(start + 0x6000));
    assert!(platform.table.find(start + 0x3000).is_none());
    assert_eq!(platform.byte(start + 0x6007), 0);
    assert_eq!(platform.table.flags(start + 0x4000), (true, false));
    // The three pages of the stack end at 0x7000.
    assert_eq!(mappings.framebuffer, Some(VirtAddr::new(start + 0x7000)));
    assert_eq!(platform.table.find(start + 0x8000).unwrap().1, 0xC000);
    assert_eq!(mappings.ramdisk_slice_start, Some(VirtAddr::new(0x900_0000_0000)));
    assert_eq!(mappings.ramdisk_slice_phys_start, Some(PhysAddr::new(0x9000)));
    assert_eq!(mappings.ramdisk_slice_len, 4);
    assert_eq!(platform.byte(0x900_0000_0003), b'k');
    // Physical memory is mapped with huge pages as far as they fit.
    let memory = mappings.physical_memory_offset.unwrap().as_u64();
    assert_eq!(memory, start + 0x20_0000);
    assert_eq!(platform.table.find(memory + 0x20_0000).unwrap().3, X86PageSize::Size2MiB);
    assert_eq!(platform.table.find(memory + 0x40_2000).unwrap().3, X86PageSize::Size4KiB);
    assert!(platform.table.find(memory + 0x40_3000).is_none());
    assert_eq!(platform.byte(memory + 0x9000), b'd');
    // The context switch function has two identity-mapped frames.
    assert_eq!(platform.table.find(0x7_0000).unwrap().1, 0x7_0000);
    assert_eq!(platform.table.find(0x7_1000).unwrap().1, 0x7_1000);
    assert_eq!(platform.table.flags(0x7_0000), (false, true));
    assert_eq!(mappings.kernel_slice_start, PhysAddr::new(KERNEL));
    assert_eq!(mappings.kernel_slice_len, file.len() as u64);
    assert_eq!(mappings.recursive_index, None);
    assert!(platform.file_is_unchanged(&file));

    assert_eq!(
        boot_info_fields(&config, &mappings, &info),
        BootInfoFields {
            framebuffer: Some(start + 0x7000),
            physical_memory_offset: Some(start + 0x20_0000),
            recursive_index: None,
            rsdp_addr: Some(0xE0000),
            tls_template: mappings.tls_template,
            ramdisk_addr: Some(0x900_0000_0000),
            ramdisk_len: 4,
            kernel_addr: KERNEL,
            kernel_len: file.len() as u64,
            kernel_image_offset: start - 0x1000,
            kernel_stack_bottom: start + 0x4000,
            kernel_stack_len: 0x2008,
        }
    );
}

#[test]
fn random_words_count_only_where_the_kernel_asks_for_them() {
    let boot = |aslr: bool| {
        let mut api = api_config();
        api.mappings.aslr = aslr;
        let file = kernel_file(&api);
        let mut platform = Platform::with_file(&file);
        let env = BootEnvironment {
            rng: Some(AslrWords { kernel: 3, framebuffer: 2, ramdisk: 1, physical_memory: 0 }),
            ..environment()
        };
        let info = SystemInfo {
            framebuffer: Some(RawFrameBufferInfo { addr: PhysAddr::new(0xB000), byte_len: 1 }),
            ..no_devices()
        };
        let mappings = set_up_mappings(
            &Kernel::parse(&file),
            &info,
            &env,
            &mut platform.table,
            &mut platform.frames,
            &mut platform.memory,
        )
        .unwrap();
        (mappings.entry_point.as_u64(), mappings.framebuffer.unwrap().as_u64())
    };
    let start = 0x80_0000_0000u64;
    assert_eq!(boot(false), (start + 0x40, start + 0x1_8000));
    // The kernel moves by three pages. The first three pages in front of it are free, and the
    // third of them is position two.
    assert_eq!(boot(true), (start + 0x3040, start + 0x2000));
}

#[test]
fn failing_steps_of_a_boot_are_reported() {
    let boot = |api: &bootloader_api::BootloaderConfig, info: SystemInfo, env: BootEnvironment, frames: u64, maps: usize| {
        let file = kernel_file(api);
        let mut platform = Platform::with_file(&file);
        platform.frames.end = FRAMES + frames * 0x1000;
        platform.table.maps_left = maps;
        set_up_mappings(
            &Kernel::parse(&file),
            &info,
            &env,
            &mut platform.table,
            &mut platform.frames,
            &mut platform.memory,
        )
        .err()
    };
    let many = usize::MAX;
    let mut api = api_config();
    api.kernel_stack_size = 0x1000;
    assert!(boot(&api, no_devices(), environment(), 10, many).is_none());
    assert!(matches!(
        boot(&api, no_devices(), environment(), 0, many),
        Some(SetUpError::Kernel(LoadError::FrameAllocationFailed))
    ));
    // The kernel takes two frames for its BSS.
    assert!(matches!(
        boot(&api, no_devices(), environment(), 2, many),
        Some(SetUpError::Stack(LoadError::FrameAllocationFailed))
    ));
    let misplaced = BootEnvironment { kernel_start: PhysAddr::new(KERNEL + 1), ..environment() };
    assert!(matches!(
        boot(&api, no_devices(), misplaced, 10, many),
        Some(SetUpError::Kernel(LoadError::NotPageAligned))
    ));
    let empty = SystemInfo {
        framebuffer: Some(RawFrameBufferInfo { addr: PhysAddr::new(0), byte_len: 0 }),
        ..no_devices()
    };
    assert!(matches!(
        boot(&api, empty, environment(), 10, many),
        Some(SetUpError::Framebuffer(LoadError::InvalidPlacement))
    ));
    let disk = SystemInfo { ramdisk_addr: Some(0x8), ramdisk_len: 8, ..no_devices() };
    assert!(matches!(
        boot(&api, disk, environment(), 10, many),
        Some(SetUpError::Ramdisk(LoadError::MappingFailed(MapError::InvalidAddress)))
    ));
    api.mappings.physical_memory = Some(bootloader_api::config::Mapping::FixedAddress(8));
    assert!(matches!(
        boot(&api, no_devices(), environment(), 10, many),
        Some(SetUpError::PhysicalMemory(LoadError::MappingFailed(MapError::InvalidAddress)))
    ));
    api.mappings.physical_memory = None;
    // Three pages of the kernel, of which the last file page is remapped, and one of the stack.
    assert!(matches!(
        boot(&api, no_devices(), environment(), 10, 5),
        Some(SetUpError::ContextSwitch(MapError::FrameAllocationFailed))
    ));
    // All addresses are out of the dynamic range.
    api.mappings.kernel_base = bootloader_api::config::Mapping::FixedAddress(0x100_0000_0000);
    api.mappings.dynamic_range_start = Some(0xFFFF_FFFF_FFFE_0000);
    api.mappings.dynamic_range_end = Some(0xFFFF_FFFF_FFFE_1000);
    assert!(matches!(
        boot(&api, no_devices(), environment(), 10, many),
        Some(SetUpError::NoStackRegion)
    ));
    // The kernel would end outside the address space.
    api.mappings.kernel_base =
        bootloader_api::config::Mapping::FixedAddress(0xFFFF_FFFF_FFFF_D000);
    assert!(matches!(
        boot(&api, no_devices(), environment(), 10, many),
        Some(SetUpError::KernelOutOfRange)
    ));
}

#[test]
fn the_recursive_mapping_takes_a_free_entry() {
    let mut used = [false; 512];
    used[0] = true;
    used[1] = true;
    assert_eq!(recursive_index(Mapping::Dynamic, &used), Ok(2));
    assert_eq!(recursive_index(Mapping::FixedAddress(0x180_0000_0000), &used), Ok(3));
    assert_eq!(recursive_index(Mapping::FixedAddress(0xFFFF_FF80_0000_0000), &used), Ok(511));
    assert_eq!(
        recursive_index(Mapping::FixedAddress(0x80_0000_0000), &used),
        Err(RecursiveError::AlreadyInUse(1))
    );
    assert_eq!(
        recursive_index(Mapping::FixedAddress(0x80_0000_1000), &used),
        Err(RecursiveError::NotAligned)
    );
    assert_eq!(
        recursive_index(Mapping::FixedAddress(0x8000_0000_0000), &used),
        Err(RecursiveError::NotCanonical)
    );
    assert_eq!(
        recursive_index(Mapping::Dynamic, &[true; 512]),
        Err(RecursiveError::NoFreeEntry)
    );
}

#[test]
fn the_boot_info_has_an_aligned_place() {
    let mut space = AddressSpace::new();
    space.mark_used(VirtAddr::new(0), 0x1001);
    assert_eq!(
        place_boot_info(&mut space, Mapping::Dynamic, 0x100, 8),
        Ok(VirtAddr::new(0x1008))
    );
    // What was found is used now, and touches what was used before but for a few bytes.
    assert_eq!(space.region_count(), 2);
    assert_eq!(
        place_boot_info(&mut space, Mapping::FixedAddress(0x9008), 0x100, 8),
        Ok(VirtAddr::new(0x9008))
    );
    assert_eq!(
        place_boot_info(&mut space, Mapping::FixedAddress(0x9004), 0x100, 8),
        Err(BootInfoError::NotAligned)
    );
    assert_eq!(
        place_boot_info(&mut space, Mapping::Dynamic, u64::MAX, 8),
        Err(BootInfoError::NoSpace)
    );
}

#[test]
fn the_boot_info_is_shared_by_both_page_tables() {
    let (mut kernel, mut bootloader) = (Table::new(), Table::new());
    let mut frames = Frames { next: FRAMES, end: FRAMES + 0x3000 };
    let addr = VirtAddr::new(0x80_0000_0FF8);
    map_boot_info(addr, 0x1010, &mut kernel, &mut bootloader, &mut frames).unwrap();
    assert_eq!(kernel.entries, bootloader.entries);
    let pages: Vec<_> = kernel.entries.iter().map(|(v, e)| (*v, e.0)).collect();
    assert_eq!(
        pages,
        vec![
            (0x80_0000_0000, FRAMES),
            (0x80_0000_1000, FRAMES + 0x1000),
            (0x80_0000_2000, FRAMES + 0x2000),
        ]
    );
    assert_eq!(kernel.flags(0x80_0000_2000), (true, false));
    assert_eq!(
        map_boot_info(addr, 8, &mut kernel, &mut bootloader, &mut frames),
        Err(BootInfoError::FrameAllocationFailed)
    );
    frames.end += 0x2000;
    assert_eq!(
        map_boot_info(addr, 8, &mut kernel, &mut bootloader, &mut frames),
        Err(BootInfoError::KernelMapping(MapError::AlreadyMapped))
    );
    assert_eq!(
        map_boot_info(addr, 8, &mut Table::new(), &mut bootloader, &mut frames),
        Err(BootInfoError::BootloaderMapping(MapError::AlreadyMapped))
    );
    // A refused page ends it, and the pages before it stay mapped in both.
    let (mut kernel, mut bootloader) = (Table::new(), Table::new());
    kernel.maps_left = 1;
    frames.end += 0x10000;
    assert_eq!(
        map_boot_info(addr, 0x1010, &mut kernel, &mut bootloader, &mut frames),
        Err(BootInfoError::KernelMapping(MapError::FrameAllocationFailed))
    );
    assert_eq!(kernel.entries, bootloader.entries);
    assert_eq!(kernel.entries.keys().copied().collect::<Vec<_>>(), vec![0x80_0000_0000]);
}

#[test]
fn the_recursive_mapping_is_reported_if_it_is_configured() {
    let boot = |mapping: Option<bootloader_api::config::Mapping>, used: &[bool; 512]| {
        let mut api = api_config();
        api.mappings.page_table_recursive = mapping;
        let file = kernel_file(&api);
        let mut platform = Platform::with_file(&file);
        let kernel = Kernel::parse(&file);
        let regions = set_up_mappings(
            &kernel,
            &no_devices(),
            &environment(),
            &mut platform.table,
            &mut platform.frames,
            &mut platform.memory,
        )
        .unwrap();
        let entry_point = regions.entry_point;
        regions.with_recursive_index(&kernel.config, used).map(|mappings| {
            assert_eq!(mappings.entry_point, entry_point);
            mappings.recursive_index
        })
    };
    let mut used = [false; 512];
    used[0] = true;
    assert_eq!(boot(None, &used), Ok(None));
    assert_eq!(boot(None, &[true; 512]), Ok(None));
    assert_eq!(boot(Some(bootloader_api::config::Mapping::Dynamic), &used), Ok(Some(1)));
    assert_eq!(
        boot(Some(bootloader_api::config::Mapping::Dynamic), &[true; 512]),
        Err(RecursiveError::NoFreeEntry)
    );
    assert_eq!(
        boot(Some(bootloader_api::config::Mapping::FixedAddress(0x300_0000_0000)), &used),
        Ok(Some(6))
    );
}
