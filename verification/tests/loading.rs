use elf::abi;
use kernel_elf_loader::elf_file::parse as elf_file_parse;
use kernel_elf_loader::elf_loading::{handle_bss_section, map_load_segment};
use kernel_elf_loader::loader::calc_elf_memory_requirements;
use kernel_elf_loader::relocation::{ensure_page_writable, CopiedPages, MAX_COPIED_PAGES};
use kernel_elf_loader::x86_bridge::X86PageSize;
use kernel_elf_loader::{
    FrameAllocator, KernelPlacement, LoadError, LoadedKernel, Loader, MapError, PageFlags, PageSize,
    PageTable, PhysAddr, PhysicalMemoryAccess, RegionPlacement, TlsTemplate, UnmapError, VirtAddr,
};
use std::collections::{BTreeMap, HashMap};

/// A page table in which every mapped page is listed by its start.
struct Table {
    entries: BTreeMap<u64, (u64, PageFlags, X86PageSize)>,
    maps_left: usize,
}

impl Table {
    fn new() -> Self {
        Table { entries: BTreeMap::new(), maps_left: usize::MAX }
    }

    fn find(&self, virt: u64) -> Option<(u64, u64, PageFlags, X86PageSize)> {
        let (&start, &(phys, flags, size)) = self.entries.range(..=virt).next_back()?;
        if virt - start < size.bytes() {
            Some((start, phys, flags, size))
        } else {
            None
        }
    }

    fn flags(&self, virt: u64) -> (bool, bool) {
        let (_, _, flags, _) = self.find(virt).unwrap();
        (flags.writable, flags.executable)
    }
}

impl PageTable<X86PageSize> for Table {
    fn map<A: FrameAllocator<X86PageSize>>(
        &mut self,
        virt: VirtAddr,
        phys: PhysAddr,
        page_size: X86PageSize,
        flags: PageFlags,
        _allocator: &mut A,
    ) -> Result<(), MapError> {
        let bytes = page_size.bytes();
        if virt.as_u64() % bytes != 0 || phys.as_u64() % bytes != 0 {
            return Err(MapError::InvalidAddress);
        }
        if self.maps_left == 0 {
            return Err(MapError::FrameAllocationFailed);
        }
        let mut page = virt.as_u64();
        while page < virt.as_u64() + bytes {
            if self.find(page).is_some() {
                return Err(MapError::AlreadyMapped);
            }
            page += 0x1000;
        }
        self.maps_left -= 1;
        self.entries.insert(virt.as_u64(), (phys.as_u64(), flags, page_size));
        Ok(())
    }

    fn update_flags(&mut self, virt: VirtAddr, flags: PageFlags) -> Result<(), MapError> {
        match self.entries.get_mut(&virt.as_u64()) {
            Some(entry) if entry.2 == X86PageSize::Size4KiB => {
                entry.1 = flags;
                Ok(())
            }
            Some(_) => Err(MapError::ParentEntryHugePage),
            None => Err(MapError::NotMapped),
        }
    }

    fn unmap(&mut self, virt: VirtAddr) -> Result<(PhysAddr, X86PageSize), UnmapError> {
        match self.entries.get(&virt.as_u64()) {
            Some(&(phys, _, X86PageSize::Size4KiB)) => {
                self.entries.remove(&virt.as_u64());
                Ok((PhysAddr::new(phys), X86PageSize::Size4KiB))
            }
            Some(_) => Err(UnmapError::ParentEntryHugePage),
            None => Err(UnmapError::NotMapped),
        }
    }

    fn translate(&self, virt: VirtAddr) -> Option<(PhysAddr, PageFlags, X86PageSize)> {
        let (start, phys, flags, size) = self.find(virt.as_u64())?;
        Some((PhysAddr::new(phys + (virt.as_u64() - start)), flags, size))
    }
}

/// Hands out the 4 KiB frames of one range, one after another.
struct Frames {
    next: u64,
    end: u64,
}

impl FrameAllocator<X86PageSize> for Frames {
    fn allocate_frame(&mut self, size: X86PageSize) -> Option<PhysAddr> {
        if size != X86PageSize::Size4KiB || self.next >= self.end {
            return None;
        }
        let frame = self.next;
        self.next += 0x1000;
        Some(PhysAddr::new(frame))
    }
}

/// Physical memory in which a byte that was never written is 0xEE.
struct Memory {
    bytes: HashMap<u64, u8>,
}

impl Memory {
    fn get(&self, addr: u64) -> u8 {
        *self.bytes.get(&addr).unwrap_or(&0xEE)
    }

    fn put(&mut self, addr: u64, data: &[u8]) {
        for (i, byte) in data.iter().enumerate() {
            self.bytes.insert(addr + i as u64, *byte);
        }
    }
}

impl PhysicalMemoryAccess for Memory {
    fn read_phys(&self, addr: PhysAddr, buf: &mut [u8]) {
        for (i, byte) in buf.iter_mut().enumerate() {
            *byte = self.get(addr.as_u64() + i as u64);
        }
    }

    fn write_phys(&mut self, addr: PhysAddr, buf: &[u8]) {
        self.put(addr.as_u64(), buf);
    }

    fn zero_phys(&mut self, addr: PhysAddr, len: u64) {
        self.put(addr.as_u64(), &vec![0; len as usize]);
    }

    fn copy_phys(&mut self, src: PhysAddr, dst: PhysAddr, len: u64) {
        let mut buf = vec![0; len as usize];
        self.read_phys(src, &mut buf);
        self.put(dst.as_u64(), &buf);
    }
}

/// The three platform objects.
struct Platform {
    table: Table,
    frames: Frames,
    memory: Memory,
}

impl Platform {
    fn new() -> Self {
        Platform {
            table: Table::new(),
            frames: Frames { next: FRAMES, end: FRAMES + 0x100_0000 },
            memory: Memory { bytes: HashMap::new() },
        }
    }

    fn with_file(file: &[u8]) -> Self {
        let mut platform = Platform::new();
        platform.memory.put(KERNEL, file);
        platform
    }

    fn loader(&mut self) -> Loader<'_, X86PageSize, Table, Frames, Memory> {
        Loader::new(&mut self.table, &mut self.frames, &mut self.memory)
    }

    fn byte(&self, virt: u64) -> u8 {
        let (phys, _, _) = self.table.translate(VirtAddr::new(virt)).unwrap();
        self.memory.get(phys.as_u64())
    }

    fn word(&self, virt: u64) -> u64 {
        let mut bytes = [0; 8];
        for (i, byte) in bytes.iter_mut().enumerate() {
            *byte = self.byte(virt + i as u64);
        }
        u64::from_le_bytes(bytes)
    }

    fn file_is_unchanged(&self, file: &[u8]) -> bool {
        (0..file.len()).all(|i| self.memory.get(KERNEL + i as u64) == file[i])
    }
}

/// Physical address of the kernel file.
const KERNEL: u64 = 0x10_0000;

/// Physical address of the first free frame.
const FRAMES: u64 = 0x4000_0000;

#[derive(Clone, Copy)]
struct Segment {
    p_type: u32,
    p_flags: u32,
    p_offset: u64,
    p_vaddr: u64,
    p_filesz: u64,
    p_memsz: u64,
    p_align: u64,
}

fn load(p_flags: u32, p_offset: u64, p_vaddr: u64, p_filesz: u64, p_memsz: u64) -> Segment {
    Segment { p_type: abi::PT_LOAD, p_flags, p_offset, p_vaddr, p_filesz, p_memsz, p_align: 0x1000 }
}

fn other(p_type: u32, p_offset: u64, p_vaddr: u64, p_filesz: u64, p_memsz: u64) -> Segment {
    Segment { p_type, p_flags: abi::PF_R, p_offset, p_vaddr, p_filesz, p_memsz, p_align: 8 }
}

/// A 64-bit little-endian ELF file of `len` bytes with the given program headers. The bytes
/// from 0x1000 on count up.
fn elf_file(e_type: u16, e_machine: u16, e_entry: u64, segments: &[Segment], len: usize) -> Vec<u8> {
    let mut file = vec![0x7f, b'E', b'L', b'F', 2, 1, 1, 0, 0, 0, 0, 0, 0, 0, 0, 0];
    file.extend(e_type.to_le_bytes());
    file.extend(e_machine.to_le_bytes());
    file.extend(1u32.to_le_bytes());
    file.extend(e_entry.to_le_bytes());
    file.extend((if segments.is_empty() { 0u64 } else { 64 }).to_le_bytes());
    file.extend(0u64.to_le_bytes());
    file.extend(0u32.to_le_bytes());
    for half in [64u16, 56, segments.len() as u16, 64, 0, 0] {
        file.extend(half.to_le_bytes());
    }
    for s in segments {
        file.extend(s.p_type.to_le_bytes());
        file.extend(s.p_flags.to_le_bytes());
        for word in [s.p_offset, s.p_vaddr, s.p_vaddr, s.p_filesz, s.p_memsz, s.p_align] {
            file.extend(word.to_le_bytes());
        }
    }
    file.resize(0x1000.min(len), 0);
    while file.len() < len {
        file.push((file.len() % 251) as u8);
    }
    file
}

fn set_words(file: &mut [u8], offset: usize, words: &[u64]) {
    for (i, word) in words.iter().enumerate() {
        file[offset + i * 8..offset + i * 8 + 8].copy_from_slice(&word.to_le_bytes());
    }
}

#[test]
fn an_exec_kernel_is_mapped_in_place() {
    let segments = [
        load(abi::PF_R | abi::PF_X, 0x1000, 0x40_0000, 0x1000, 0x1000),
        load(abi::PF_R | abi::PF_W, 0x2000, 0x40_2000, 0x1800, 0x3800),
    ];
    let file = elf_file(abi::ET_EXEC, abi::EM_X86_64, 0x40_0010, &segments, 0x3800);
    let mut platform = Platform::with_file(&file);
    let kernel = platform
        .loader()
        .load_kernel(&file, PhysAddr::new(KERNEL), KernelPlacement::Auto, false, None)
        .unwrap();
    assert_eq!(kernel.entry_point, VirtAddr::new(0x40_0010));
    assert_eq!(kernel.load_base, 0);
    assert_eq!(kernel.tls_template, None);
    for i in 0..0x1000 {
        assert_eq!(platform.byte(0x40_0000 + i), file[0x1000 + i as usize]);
    }
    for i in 0..0x1800 {
        assert_eq!(platform.byte(0x40_2000 + i), file[0x2000 + i as usize]);
    }
    for i in 0x1800..0x3800 {
        assert_eq!(platform.byte(0x40_2000 + i), 0);
    }
    assert_eq!(platform.table.flags(0x40_0000), (false, true));
    assert_eq!(platform.table.flags(0x40_2000), (true, false));
    assert_eq!(platform.table.flags(0x40_5000), (true, false));
    assert!(platform.table.find(0x40_1000).is_none());
    assert!(platform.table.find(0x40_6000).is_none());
    assert!(platform.file_is_unchanged(&file));
    // The text is mapped straight from the file.
    assert_eq!(platform.table.find(0x40_0000).unwrap().1, KERNEL + 0x1000);
}

#[test]
fn the_pages_of_a_kernel_are_used() {
    let segments = [load(abi::PF_R, 0x1000, 0x40_0800, 0x1000, 0x1000)];
    let file = elf_file(abi::ET_EXEC, abi::EM_X86_64, 0, &segments, 0x3000);
    let mut platform = Platform::with_file(&file);
    let mut loader = platform.loader();
    loader.mark_used(VirtAddr::new(0), 0x40_0000);
    loader
        .load_kernel(&file, PhysAddr::new(KERNEL), KernelPlacement::Auto, false, None)
        .unwrap();
    assert_eq!(loader.address_space().region_count(), 1);
    assert_eq!(
        loader.address_space_mut().find_free(0x1000, 0x1000, None),
        Some(VirtAddr::new(0x40_2000))
    );
}

/// A position-independent file with a RELA table at 0x1900, a RELR table at 0x1A00 and words to
/// relocate from 0x2000 on.
fn relocatable_file(rela: &[u64], relr: &[u64]) -> Vec<u8> {
    let segments = [
        load(abi::PF_R | abi::PF_W, 0x1000, 0x1000, 0x2000, 0x2000),
        other(abi::PT_DYNAMIC, 0x1800, 0x1800, 0x70, 0x70),
        other(abi::PT_GNU_RELRO, 0x2000, 0x2000, 0x800, 0x800),
    ];
    let mut file = elf_file(abi::ET_DYN, abi::EM_X86_64, 0x1010, &segments, 0x3000);
    let mut dynamic = vec![];
    if !rela.is_empty() {
        dynamic.extend([abi::DT_RELA as u64, 0x1900]);
        dynamic.extend([abi::DT_RELASZ as u64, rela.len() as u64 * 8]);
        dynamic.extend([abi::DT_RELAENT as u64, 24]);
    }
    if !relr.is_empty() {
        dynamic.extend([36, 0x1A00, 35, relr.len() as u64 * 8, 37, 8]);
    }
    dynamic.extend([0, 0]);
    dynamic.resize(14, 0);
    set_words(&mut file, 0x1800, &dynamic);
    set_words(&mut file, 0x1900, rela);
    set_words(&mut file, 0x1A00, relr);
    file
}

fn load_dyn(platform: &mut Platform, file: &[u8]) -> Result<LoadedKernel, LoadError> {
    let mut loader = platform.loader();
    loader.mark_used(VirtAddr::new(0), 0x20_0000);
    loader.load_kernel(file, PhysAddr::new(KERNEL), KernelPlacement::Auto, false, None)
}

#[test]
fn rela_entries_give_the_load_base_plus_the_addend() {
    let relative = abi::R_X86_64_RELATIVE as u64;
    let file = relocatable_file(&[0x2000, relative, 0x1234, 0x2FF8, relative, 0x10], &[]);
    let mut platform = Platform::with_file(&file);
    let kernel = load_dyn(&mut platform, &file).unwrap();
    // The lowest address 0x1000 comes to lie at 0x20_0000.
    assert_eq!(kernel.load_base, 0x1F_F000);
    assert_eq!(kernel.entry_point, VirtAddr::new(0x20_0010));
    assert_eq!(platform.word(0x20_1000), 0x1F_F000 + 0x1234);
    assert_eq!(platform.word(0x20_1FF8), 0x1F_F000 + 0x10);
    // Every other byte is that of the file.
    for i in (0..0x1000).chain(0x1008..0x1FF8) {
        assert_eq!(platform.byte(0x20_0000 + i), file[0x1000 + i as usize]);
    }
    assert!(platform.file_is_unchanged(&file));
    // The relocated page is a copy, and protected in the end; the other page is not.
    assert!(platform.table.find(0x20_1000).unwrap().1 >= FRAMES);
    assert_eq!(platform.table.flags(0x20_1000), (false, false));
    assert_eq!(platform.table.find(0x20_0000).unwrap().1, KERNEL + 0x1000);
    assert_eq!(platform.table.flags(0x20_0000), (true, false));
}

#[test]
fn relr_entries_add_the_load_base() {
    // 0x2010 itself, then of the words from 0x2018 on the first and the third, then the last
    // of the 63 words from 0x2018 + 504 on.
    let file = relocatable_file(&[], &[0x2010, 0b1011, (1 << 63) | 1]);
    let mut platform = Platform::with_file(&file);
    let kernel = load_dyn(&mut platform, &file).unwrap();
    let base = kernel.load_base as u64;
    let before = |vaddr: u64| {
        let at = vaddr as usize;
        u64::from_le_bytes(file[at..at + 8].try_into().unwrap())
    };
    let relocated = [0x2010u64, 0x2018, 0x2028, 0x2018 + 504 + 62 * 8];
    for word in (0x2000..0x3000).step_by(8) {
        let expected = if relocated.contains(&word) {
            before(word).wrapping_add(base)
        } else {
            before(word)
        };
        assert_eq!(platform.word(base + word), expected, "word {word:#x}");
    }
}

#[test]
fn a_negative_load_base_is_added_modulo_the_address_space() {
    let relative = abi::R_X86_64_RELATIVE as u64;
    let file = relocatable_file(&[0x2000, relative, 0x500], &[]);
    let mut platform = Platform::with_file(&file);
    let base = 0xFFFF_8000_0000_0000u64;
    let kernel = platform
        .loader()
        .load_kernel(
            &file,
            PhysAddr::new(KERNEL),
            KernelPlacement::Fixed(VirtAddr::new(base)),
            false,
            None,
        )
        .unwrap();
    assert_eq!(kernel.load_base, -0x8000_0000_0000);
    assert_eq!(kernel.entry_point, VirtAddr::new(base + 0x1010));
    assert_eq!(platform.word(base + 0x2000), base + 0x500);
}

#[test]
fn a_word_that_leaves_its_page_goes_on_in_the_frame_behind() {
    let file = relocatable_file(&[0x1FFC, abi::R_X86_64_RELATIVE as u64, 0x1122_3344_0000_0000], &[]);
    let mut platform = Platform::with_file(&file);
    let base = load_dyn(&mut platform, &file).unwrap().load_base as u64;
    let value = (0x1122_3344_0000_0000 + base).to_le_bytes();
    let end = 0x1FFC + base;
    for i in 0..4 {
        assert_eq!(platform.byte(end + i), value[i as usize]);
        // The next page still shows the file.
        assert_eq!(platform.byte(end + 4 + i), file[0x2000 + i as usize]);
        assert_eq!(platform.memory.get(FRAMES + 0x1000 + i), value[4 + i as usize]);
    }
    assert!(platform.file_is_unchanged(&file));
}

#[test]
fn a_random_word_moves_the_kernel() {
    let file = relocatable_file(&[], &[]);
    let mut platform = Platform::with_file(&file);
    let mut loader = platform.loader();
    loader.mark_used(VirtAddr::new(0), 0x20_0000);
    let kernel = loader
        .load_kernel(&file, PhysAddr::new(KERNEL), KernelPlacement::Auto, false, Some(5))
        .unwrap();
    assert_eq!(kernel.load_base, 0x20_5000 - 0x1000);
}

#[test]
fn relocations_that_cannot_be_applied_are_reported() {
    let relative = abi::R_X86_64_RELATIVE as u64;
    let try_rela = |rela: &[u64]| {
        let file = relocatable_file(rela, &[]);
        load_dyn(&mut Platform::with_file(&file), &file)
    };
    assert!(matches!(
        try_rela(&[0x2000, 1, 0]),
        Err(LoadError::UnsupportedRelocation(1))
    ));
    assert!(matches!(
        try_rela(&[0x2000, relative | 1 << 32, 0]),
        Err(LoadError::InvalidElf("relocations using the symbol table are not supported"))
    ));
    assert!(matches!(
        try_rela(&[0x8000, relative, 0]),
        Err(LoadError::InvalidElf("page not mapped during relocation"))
    ));

    let mut file = relocatable_file(&[0x2000, relative, 0], &[]);
    file[18..20].copy_from_slice(&3u16.to_le_bytes());
    assert!(matches!(
        load_dyn(&mut Platform::with_file(&file), &file),
        Err(LoadError::UnsupportedMachine(3))
    ));

    let mut file = relocatable_file(&[0x2000, relative, 0], &[]);
    set_words(&mut file, 0x1828, &[16]);
    assert!(matches!(
        load_dyn(&mut Platform::with_file(&file), &file),
        Err(LoadError::InvalidElf("unexpected RELA entry size (expected 24)"))
    ));

    let mut file = relocatable_file(&[0x2000, relative, 0], &[]);
    set_words(&mut file, 0x1808, &[0x9000]);
    assert!(matches!(
        load_dyn(&mut Platform::with_file(&file), &file),
        Err(LoadError::InvalidElf("address not mapped"))
    ));

    let mut file = relocatable_file(&[], &[0x2000]);
    set_words(&mut file, 0x1828, &[16]);
    assert!(matches!(
        load_dyn(&mut Platform::with_file(&file), &file),
        Err(LoadError::InvalidElf("unexpected RELR entry size (expected 8)"))
    ));
}

#[test]
fn incomplete_dynamic_tables_are_reported() {
    let with_dynamic = |dynamic: &[u64]| {
        let mut file = relocatable_file(&[], &[]);
        set_words(&mut file, 0x1800, dynamic);
        load_dyn(&mut Platform::with_file(&file), &file)
    };
    let (rela, size, ent) =
        (abi::DT_RELA as u64, abi::DT_RELASZ as u64, abi::DT_RELAENT as u64);
    assert!(matches!(
        with_dynamic(&[rela, 0x1900, ent, 24]),
        Err(LoadError::InvalidElf("DT_RELA without DT_RELASZ"))
    ));
    assert!(matches!(
        with_dynamic(&[rela, 0x1900, size, 24]),
        Err(LoadError::InvalidElf("DT_RELA without DT_RELAENT"))
    ));
    assert!(matches!(
        with_dynamic(&[ent, 24]),
        Err(LoadError::InvalidElf("DT_RELASZ or DT_RELAENT without DT_RELA"))
    ));
    assert!(matches!(
        with_dynamic(&[36, 0x1A00, 37, 8]),
        Err(LoadError::InvalidElf("DT_RELR without DT_RELRSZ"))
    ));
    assert!(matches!(
        with_dynamic(&[36, 0x1A00, 35, 8]),
        Err(LoadError::InvalidElf("DT_RELR without DT_RELRENT"))
    ));
    // The size of a RELR table alone is no error.
    assert!(with_dynamic(&[35, 8]).is_ok());
    // A later entry overrides an earlier one: the second size says that there are no entries.
    assert!(with_dynamic(&[rela, 0x1900, size, 24, ent, 24, size, 0]).is_ok());
}

#[test]
fn a_dynamic_table_outside_the_file_is_reported() {
    let segments = [
        load(abi::PF_R, 0x1000, 0x1000, 0x1000, 0x1000),
        other(abi::PT_DYNAMIC, 0x9000, 0x9000, 0x70, 0x70),
    ];
    let file = elf_file(abi::ET_DYN, abi::EM_X86_64, 0, &segments, 0x2000);
    assert!(matches!(
        load_dyn(&mut Platform::with_file(&file), &file),
        Err(LoadError::InvalidElf("failed to parse dynamic section"))
    ));
}

#[test]
fn there_is_one_tls_template() {
    let tls = other(abi::PT_TLS, 0x1100, 0x1100, 0x20, 0x40);
    let text = load(abi::PF_R, 0x1000, 0x1000, 0x1000, 0x1000);
    let file = elf_file(abi::ET_DYN, abi::EM_X86_64, 0, &[tls, text], 0x2000);
    let kernel = load_dyn(&mut Platform::with_file(&file), &file).unwrap();
    assert_eq!(
        kernel.tls_template,
        Some(TlsTemplate {
            start_addr: VirtAddr::new(0x20_0100),
            file_size: 0x20,
            mem_size: 0x40
        })
    );
    let file = elf_file(abi::ET_DYN, abi::EM_X86_64, 0, &[tls, text, tls], 0x2000);
    assert!(matches!(
        load_dyn(&mut Platform::with_file(&file), &file),
        Err(LoadError::InvalidElf("multiple TLS segments"))
    ));
}

#[test]
fn bss_starts_in_the_middle_of_a_page() {
    let segments = [load(abi::PF_R | abi::PF_W, 0x1000, 0x1000, 0x100, 0x200)];
    let file = elf_file(abi::ET_DYN, abi::EM_X86_64, 0, &segments, 0x2000);
    let mut platform = Platform::with_file(&file);
    load_dyn(&mut platform, &file).unwrap();
    for i in 0..0x100 {
        assert_eq!(platform.byte(0x20_0000 + i), file[0x1000 + i as usize]);
    }
    for i in 0x100..0x1000 {
        assert_eq!(platform.byte(0x20_0000 + i), 0);
    }
    assert!(platform.file_is_unchanged(&file));

    // Without a file part there is no page to share.
    let segments = [load(abi::PF_R | abi::PF_W, 0x1000, 0x40_0100, 0, 0x200)];
    let file = elf_file(abi::ET_EXEC, abi::EM_X86_64, 0, &segments, 0x2000);
    assert!(matches!(
        load_dyn(&mut Platform::with_file(&file), &file),
        Err(LoadError::InvalidElf("BSS partial page not mapped"))
    ));
}

#[test]
fn bad_files_and_placements_are_reported() {
    let segments = [load(abi::PF_R, 0x1000, 0x1000, 0x1000, 0x1000)];
    let file = elf_file(abi::ET_DYN, abi::EM_X86_64, 0, &segments, 0x2000);
    let fixed = KernelPlacement::Fixed(VirtAddr::new(0x1000_0000));
    let load = |file: &[u8], phys: u64, placement: KernelPlacement| {
        let mut platform = Platform::with_file(file);
        let mut loader = platform.loader();
        loader.load_kernel(file, PhysAddr::new(phys), placement, false, None)
    };
    assert!(matches!(
        load(&file, KERNEL + 8, KernelPlacement::Auto),
        Err(LoadError::NotPageAligned)
    ));
    assert!(matches!(
        load(&file[..40], KERNEL, KernelPlacement::Auto),
        Err(LoadError::InvalidElf("failed to parse ELF file"))
    ));
    assert!(matches!(
        load(b"no ELF file at all", KERNEL, KernelPlacement::Auto),
        Err(LoadError::InvalidElf("failed to parse ELF file"))
    ));
    let exec = elf_file(abi::ET_EXEC, abi::EM_X86_64, 0, &segments, 0x2000);
    assert!(matches!(load(&exec, KERNEL, fixed), Err(LoadError::InvalidPlacement)));
    let object = elf_file(abi::ET_REL, abi::EM_X86_64, 0, &segments, 0x2000);
    assert!(matches!(
        load(&object, KERNEL, KernelPlacement::Auto),
        Err(LoadError::UnsupportedElfType(1))
    ));
    let bare = elf_file(abi::ET_DYN, abi::EM_X86_64, 0, &[], 0x2000);
    assert!(matches!(
        load(&bare, KERNEL, fixed),
        Err(LoadError::InvalidElf("no program headers"))
    ));
    let bare = elf_file(abi::ET_EXEC, abi::EM_X86_64, 0, &[], 0x2000);
    assert!(matches!(
        load(&bare, KERNEL, KernelPlacement::Auto),
        Err(LoadError::InvalidElf("no program headers"))
    ));
    let note = [other(abi::PT_NOTE, 0x1000, 0x1000, 8, 8)];
    let empty = elf_file(abi::ET_DYN, abi::EM_X86_64, 0, &note, 0x2000);
    assert!(matches!(
        load(&empty, KERNEL, KernelPlacement::Auto),
        Err(LoadError::InvalidElf("no LOAD segments"))
    ));
    // A file with fixed addresses and nothing to load is no error.
    let empty = elf_file(abi::ET_EXEC, abi::EM_X86_64, 0x77, &note, 0x2000);
    assert_eq!(
        load(&empty, KERNEL, KernelPlacement::Auto).unwrap().entry_point,
        VirtAddr::new(0x77)
    );
}

#[test]
fn a_full_address_space_is_reported() {
    let segments = [load(abi::PF_R, 0x1000, 0x1000, 0x1000, 0x1000)];
    let file = elf_file(abi::ET_DYN, abi::EM_X86_64, 0, &segments, 0x2000);
    let mut platform = Platform::with_file(&file);
    let mut loader = platform.loader();
    loader.mark_used(VirtAddr::new(1), u64::MAX);
    assert!(matches!(
        loader.load_kernel(&file, PhysAddr::new(KERNEL), KernelPlacement::Auto, false, None),
        Err(LoadError::AddressSpaceFull)
    ));
    let flags = PageFlags::default();
    assert!(matches!(
        loader.map_physical_region(
            PhysAddr::new(0), 0x1000, flags, RegionPlacement::Auto, false, None
        ),
        Err(LoadError::AddressSpaceFull)
    ));
    assert!(matches!(
        loader.allocate_and_map(0x1000, flags, RegionPlacement::Auto, None),
        Err(LoadError::AddressSpaceFull)
    ));
    assert!(matches!(
        loader.add_guard_page(RegionPlacement::Auto, None),
        Err(LoadError::AddressSpaceFull)
    ));
    assert!(platform.table.entries.is_empty());
}

#[test]
fn refusals_of_the_platform_are_reported() {
    let segments = [load(abi::PF_R | abi::PF_W, 0x1000, 0x1000, 0x100, 0x2000)];
    let file = elf_file(abi::ET_DYN, abi::EM_X86_64, 0, &segments, 0x2000);
    let mut platform = Platform::with_file(&file);
    platform.frames.end = platform.frames.next;
    assert!(matches!(
        load_dyn(&mut platform, &file),
        Err(LoadError::FrameAllocationFailed)
    ));
    let mut platform = Platform::with_file(&file);
    platform.table.maps_left = 0;
    assert!(matches!(
        load_dyn(&mut platform, &file),
        Err(LoadError::MappingFailed(MapError::FrameAllocationFailed))
    ));
    // Two segments on one page cannot be mapped.
    let segments = [
        load(abi::PF_R, 0x1000, 0x1000, 0x800, 0x800),
        load(abi::PF_R, 0x1800, 0x1800, 0x800, 0x800),
    ];
    let file = elf_file(abi::ET_DYN, abi::EM_X86_64, 0, &segments, 0x2000);
    assert!(matches!(
        load_dyn(&mut Platform::with_file(&file), &file),
        Err(LoadError::MappingFailed(MapError::AlreadyMapped))
    ));
}

#[test]
fn more_relocated_pages_than_can_be_tracked_are_reported() {
    // One word in each of 1025 pages.
    let pages = MAX_COPIED_PAGES as u64 + 1;
    let mut rela = vec![];
    for i in 0..pages {
        rela.extend([0x10_0000 + i * 0x1000, abi::R_X86_64_RELATIVE as u64, i]);
    }
    let table_size = rela.len() as u64 * 8;
    let segments = [
        load(abi::PF_R, 0x1000, 0x1000, 0x1000 + table_size, 0x1000 + table_size),
        load(abi::PF_R | abi::PF_W, 0x2000, 0x10_0000, 0, pages * 0x1000),
        other(abi::PT_DYNAMIC, 0x1000, 0x1000, 0x40, 0x40),
    ];
    let make = |entries: u64| {
        let mut file = elf_file(
            abi::ET_DYN,
            abi::EM_X86_64,
            0,
            &segments,
            0x2000 + table_size as usize,
        );
        let dynamic = [
            abi::DT_RELA as u64, 0x2000, abi::DT_RELASZ as u64, entries * 24,
            abi::DT_RELAENT as u64, 24, 0, 0,
        ];
        set_words(&mut file, 0x1000, &dynamic);
        set_words(&mut file, 0x2000, &rela);
        file
    };
    let file = make(pages - 1);
    assert!(load_dyn(&mut Platform::with_file(&file), &file).is_ok());
    let file = make(pages);
    assert!(matches!(
        load_dyn(&mut Platform::with_file(&file), &file),
        Err(LoadError::TooManyCopiedPages)
    ));
}

#[test]
fn a_file_of_which_nothing_is_known_is_checked_first() {
    let try_reserved = |segments: &[Segment], e_type: u16, regions: u64, reserved: u64| {
        let file = elf_file(e_type, abi::EM_X86_64, 0, segments, 0x2000);
        let mut platform = Platform::with_file(&file);
        let mut loader = platform.loader();
        for i in 0..regions {
            loader.mark_used(VirtAddr::new(i * 0x10_0000_0000), 0x1000);
        }
        let loaded = loader.try_load_kernel(
            &file,
            PhysAddr::new(KERNEL),
            reserved,
            KernelPlacement::Auto,
            false,
            None,
        );
        let changed = !platform.table.entries.is_empty();
        (loaded, changed)
    };
    let try_load = |segments: &[Segment], e_type: u16, regions: u64| {
        try_reserved(segments, e_type, regions, 0x2000)
    };
    let good = load(abi::PF_R, 0x1000, 0x1000, 0x1000, 0x1000);
    assert!(matches!(try_load(&[good], abi::ET_DYN, 0), (Some(Ok(_)), true)));
    assert!(matches!(
        try_load(&[good], abi::ET_CORE, 0),
        (Some(Err(LoadError::UnsupportedElfType(4))), false)
    ));
    // No room in the address space.
    assert!(matches!(try_load(&[good], abi::ET_DYN, 128), (None, false)));
    // One more region is enough.
    assert!(matches!(try_load(&[good], abi::ET_DYN, 127), (Some(Ok(_)), true)));
    assert!(matches!(try_load(&[good], abi::ET_EXEC, 127), (Some(Ok(_)), true)));
    assert!(matches!(try_load(&[good], abi::ET_EXEC, 128), (None, false)));
    // The segment ends outside the address space.
    let long = Segment { p_memsz: u64::MAX, ..good };
    assert!(matches!(try_load(&[long], abi::ET_DYN, 0), (None, false)));
    assert!(matches!(try_load(&[long], abi::ET_EXEC, 0), (None, false)));
    // The segment lies outside the file, in memory that may or may not be handed out.
    let outside = Segment { p_offset: 0x2000, ..good };
    assert!(matches!(try_load(&[outside], abi::ET_DYN, 0), (None, false)));
    assert!(matches!(try_reserved(&[outside], abi::ET_DYN, 0, 0x3000), (Some(Ok(_)), true)));
    let outside = Segment { p_offset: u64::MAX, ..good };
    assert!(matches!(try_load(&[outside], abi::ET_DYN, 0), (None, false)));
    // The alignment is no power of two.
    let skewed = Segment { p_align: 0x3000, ..good };
    assert!(matches!(try_load(&[skewed], abi::ET_DYN, 0), (None, false)));
    // There is nothing to place.
    let nothing = Segment { p_filesz: 0, p_memsz: 0, ..good };
    assert!(matches!(try_load(&[nothing], abi::ET_DYN, 0), (None, false)));
    assert!(matches!(try_load(&[nothing], abi::ET_EXEC, 0), (Some(Ok(_)), false)));
    // Protecting the segment runs over the end of the address space.
    let relro = other(abi::PT_GNU_RELRO, 0x1000, u64::MAX - 8, 8, 8);
    assert!(matches!(try_load(&[good, relro], abi::ET_EXEC, 0), (None, false)));
}

#[test]
fn a_physical_region_is_seen_at_its_virtual_address() {
    let mut platform = Platform::new();
    platform.memory.put(0x5000, b"framebuffer");
    let flags = PageFlags { writable: true, executable: false };
    let mut loader = platform.loader();
    loader.mark_used(VirtAddr::new(0), 0x10_0000);
    let virt = loader
        .map_physical_region(PhysAddr::new(0x5000), 0x1001, flags, RegionPlacement::Auto, false, None)
        .unwrap();
    assert_eq!(virt, VirtAddr::new(0x10_0000));
    let fixed = RegionPlacement::Fixed(VirtAddr::new(0x40_0000));
    let again = loader
        .map_physical_region(PhysAddr::new(0x5000), 0x1000, flags, fixed, false, None)
        .unwrap();
    assert_eq!(again, VirtAddr::new(0x40_0000));
    assert!(matches!(
        loader.map_physical_region(PhysAddr::new(0x5000), 0x1000, flags, fixed, false, None),
        Err(LoadError::MappingFailed(MapError::AlreadyMapped))
    ));
    assert!(matches!(
        loader.map_physical_region(PhysAddr::new(0x5008), 0x1000, flags, RegionPlacement::Auto, false, None),
        Err(LoadError::MappingFailed(MapError::InvalidAddress))
    ));
    assert!(matches!(
        loader.map_physical_region(PhysAddr::new(0x5000), 0, flags, fixed, false, None),
        Err(LoadError::InvalidPlacement)
    ));
    assert_eq!(platform.byte(0x10_0000), b'f');
    assert_eq!(platform.byte(0x40_000A), b'r');
    // The last page is mapped whole.
    assert_eq!(platform.table.find(0x10_1FFF).unwrap().1, 0x6000);
    assert!(platform.table.find(0x10_2000).is_none());
}

#[test]
fn huge_pages_are_used_where_they_fit() {
    let mut platform = Platform::new();
    let flags = PageFlags { writable: true, executable: false };
    let mut loader = platform.loader();
    loader.mark_used(VirtAddr::new(0), 0x1000);
    let size = 2 * 0x20_0000 + 0x3000;
    let virt = loader
        .map_physical_region(PhysAddr::new(0), size, flags, RegionPlacement::Auto, true, None)
        .unwrap();
    assert_eq!(virt, VirtAddr::new(0x20_0000));
    let sizes: Vec<_> = platform.table.entries.iter().map(|(v, e)| (*v, e.0, e.2)).collect();
    assert_eq!(
        sizes,
        vec![
            (0x20_0000, 0, X86PageSize::Size2MiB),
            (0x40_0000, 0x20_0000, X86PageSize::Size2MiB),
            (0x60_0000, 0x40_0000, X86PageSize::Size4KiB),
            (0x60_1000, 0x40_1000, X86PageSize::Size4KiB),
            (0x60_2000, 0x40_2000, X86PageSize::Size4KiB),
        ]
    );
    // A frame that is not aligned to 2 MiB is mapped with small pages.
    let mut platform = Platform::new();
    let fixed = RegionPlacement::Fixed(VirtAddr::new(0x20_0000));
    platform
        .loader()
        .map_physical_region(PhysAddr::new(0x1000), 0x20_0000, flags, fixed, true, None)
        .unwrap();
    assert_eq!(platform.table.entries.len(), 512);
}

#[test]
fn allocated_memory_is_zeroed() {
    let mut platform = Platform::new();
    let flags = PageFlags { writable: true, executable: false };
    let mut loader = platform.loader();
    loader.mark_used(VirtAddr::new(0), 0x1000);
    let virt = loader.allocate_and_map(0x1800, flags, RegionPlacement::Auto, None).unwrap();
    assert_eq!(virt, VirtAddr::new(0x1000));
    let fixed = RegionPlacement::Fixed(VirtAddr::new(0x9000));
    assert_eq!(loader.allocate_and_map(0, flags, fixed, None).unwrap(), VirtAddr::new(0x9000));
    assert!(matches!(
        loader.allocate_and_map(0x1000, flags, RegionPlacement::Fixed(virt), None),
        Err(LoadError::MappingFailed(MapError::AlreadyMapped))
    ));
    for i in 0..0x2000 {
        assert_eq!(platform.byte(0x1000 + i), 0);
    }
    assert!(platform.table.find(0x3000).is_none());
    assert!(platform.table.find(0x9000).is_none());
    platform.frames.end = platform.frames.next;
    assert!(matches!(
        platform.loader().allocate_and_map(1, flags, RegionPlacement::Auto, None),
        Err(LoadError::FrameAllocationFailed)
    ));
}

#[test]
fn a_guard_page_is_reserved_and_not_mapped() {
    let mut platform = Platform::new();
    let mut loader = platform.loader();
    loader.mark_used(VirtAddr::new(0), 0x1000);
    assert_eq!(
        loader.add_guard_page(RegionPlacement::Auto, None).unwrap(),
        VirtAddr::new(0x1000)
    );
    assert_eq!(
        loader.add_guard_page(RegionPlacement::Auto, Some(1)).unwrap(),
        VirtAddr::new(0x3000)
    );
    let fixed = RegionPlacement::Fixed(VirtAddr::new(0x2000));
    assert_eq!(loader.add_guard_page(fixed, None).unwrap(), VirtAddr::new(0x2000));
    assert_eq!(loader.address_space().region_count(), 1);
    assert!(loader.page_table_mut().entries.is_empty());
    assert_eq!(loader.frame_allocator_mut().next, FRAMES);
}

#[test]
fn the_requirements_of_a_file_span_its_load_segments() {
    let segments = [
        load(abi::PF_R, 0x1000, 0x5000, 0x1000, 0x1000),
        Segment { p_align: 0x20_0000, ..load(abi::PF_R, 0x1000, 0x2010, 8, 8) },
        other(abi::PT_NOTE, 0x1000, 0x10, 8, 0x10_0000),
    ];
    let file = elf_file(abi::ET_DYN, abi::EM_X86_64, 0, &segments, 0x2000);
    let elf = elf_file_parse(&file).unwrap();
    assert_eq!(
        calc_elf_memory_requirements(&elf).unwrap(),
        (0x6000 - 0x2010, 0x20_0000, 0x2010)
    );
    assert_eq!(elf.segments.unwrap().len(), 3);
    assert_eq!(elf.header.e_type, abi::ET_DYN);
}

#[test]
fn a_refused_page_ends_the_mapping_of_a_region() {
    let mut platform = Platform::new();
    platform.table.maps_left = 2;
    let flags = PageFlags { writable: true, executable: false };
    let mut loader = platform.loader();
    let fixed = RegionPlacement::Fixed(VirtAddr::new(0x8000));
    assert!(matches!(
        loader.map_physical_region(PhysAddr::new(0x5000), 0x4000, flags, fixed, false, None),
        Err(LoadError::MappingFailed(MapError::FrameAllocationFailed))
    ));
    // The whole range stays marked as used.
    loader.mark_used(VirtAddr::new(0), 0x8000);
    assert_eq!(loader.address_space().region_count(), 1);
    let pages: Vec<_> = platform.table.entries.iter().map(|(v, e)| (*v, e.0)).collect();
    assert_eq!(pages, vec![(0x8000, 0x5000), (0x9000, 0x6000)]);
}

#[test]
fn every_allocated_page_has_a_frame_of_its_own() {
    let mut platform = Platform::new();
    platform.frames.end = FRAMES + 0x3000;
    let flags = PageFlags { writable: true, executable: false };
    let fixed = RegionPlacement::Fixed(VirtAddr::new(0x8000));
    assert!(matches!(
        platform.loader().allocate_and_map(0x4000, flags, fixed, None),
        Err(LoadError::FrameAllocationFailed)
    ));
    // The pages before the one without a frame are mapped.
    let pages: Vec<_> = platform.table.entries.iter().map(|(v, e)| (*v, e.0)).collect();
    assert_eq!(
        pages,
        vec![(0x8000, FRAMES), (0x9000, FRAMES + 0x1000), (0xA000, FRAMES + 0x2000)]
    );
}

#[test]
fn a_page_is_copied_once() {
    let mut platform = Platform::new();
    platform.memory.put(0x5000, &[7; 0x1000]);
    let flags = PageFlags { writable: false, executable: true };
    let page = VirtAddr::new(0x8000);
    platform
        .table
        .map(page, PhysAddr::new(0x5000), X86PageSize::Size4KiB, flags, &mut platform.frames)
        .unwrap();
    let mut copied = CopiedPages::new();
    let own = |platform: &mut Platform, copied: &mut CopiedPages, virt: u64| {
        ensure_page_writable::<X86PageSize, _, _, _>(
            VirtAddr::new(virt),
            &mut platform.table,
            &mut platform.frames,
            &mut platform.memory,
            copied,
        )
    };
    assert_eq!(own(&mut platform, &mut copied, 0x8008).unwrap(), PhysAddr::new(FRAMES + 8));
    assert_eq!(platform.table.flags(0x8000), (true, true));
    assert_eq!(platform.byte(0x8FFF), 7);
    // The second time there is no request, not even a refused one.
    platform.frames.end = platform.frames.next;
    platform.table.maps_left = 0;
    assert_eq!(own(&mut platform, &mut copied, 0x8010).unwrap(), PhysAddr::new(FRAMES + 16));
    assert_eq!(platform.frames.next, FRAMES + 0x1000);
    assert!(matches!(
        own(&mut platform, &mut copied, 0x9000),
        Err(LoadError::InvalidElf("page not mapped during relocation"))
    ));
}

#[test]
fn the_file_part_of_a_segment_is_the_file_itself() {
    let segments = [load(abi::PF_R | abi::PF_X, 0x1800, 0x1800, 0x1000, 0x1000)];
    let file = elf_file(abi::ET_DYN, abi::EM_X86_64, 0, &segments, 0x2800);
    let mut platform = Platform::with_file(&file);
    let phdr = elf_file_parse(&file).unwrap().segments.unwrap()[0];
    map_load_segment::<X86PageSize, _, _, _>(
        &phdr,
        PhysAddr::new(KERNEL),
        0x20_0000,
        false,
        &mut platform.table,
        &mut platform.frames,
        &mut platform.memory,
    )
    .unwrap();
    let pages: Vec<_> = platform.table.entries.iter().map(|(v, e)| (*v, e.0)).collect();
    assert_eq!(pages, vec![(0x20_1000, KERNEL + 0x1000), (0x20_2000, KERNEL + 0x2000)]);
    assert_eq!(platform.table.flags(0x20_1000), (false, true));
    assert_eq!(platform.frames.next, FRAMES);
    assert!(platform.file_is_unchanged(&file));
}

#[test]
fn a_zeroed_section_takes_one_frame_for_each_page() {
    let mut platform = Platform::new();
    platform.memory.put(0x8000, &[7; 0x1000]);
    let flags = PageFlags { writable: true, executable: false };
    let page = VirtAddr::new(0x20_1000);
    platform
        .table
        .map(page, PhysAddr::new(0x8000), X86PageSize::Size4KiB, flags, &mut platform.frames)
        .unwrap();
    handle_bss_section::<X86PageSize, _, _, _>(
        page,
        0x800,
        0x2800,
        flags,
        &mut platform.table,
        &mut platform.frames,
        &mut platform.memory,
    )
    .unwrap();
    let pages: Vec<_> = platform.table.entries.iter().map(|(v, e)| (*v, e.0)).collect();
    assert_eq!(
        pages,
        vec![
            (0x20_1000, FRAMES),
            (0x20_2000, FRAMES + 0x1000),
            (0x20_3000, FRAMES + 0x2000),
        ]
    );
    assert_eq!((platform.byte(0x20_17FF), platform.byte(0x20_1800)), (7, 0));
    assert_eq!(platform.byte(0x20_3FFF), 0);
    assert_eq!(platform.memory.get(0x8800), 7);
}

#[test]
fn a_refused_relocation_leaves_the_words_before_it() {
    // Three words in three pages, and a frame for two of them.
    let rela: Vec<u64> = [0x3000u64, 0x4000, 0x5000]
        .iter()
        .flat_map(|at| [*at, abi::R_X86_64_RELATIVE as u64, *at + 1])
        .collect();
    let segments = [
        load(abi::PF_R, 0x1000, 0x1000, 0x5000, 0x5000),
        other(abi::PT_DYNAMIC, 0x1000, 0x1000, 0x40, 0x40),
    ];
    let mut file = elf_file(abi::ET_EXEC, abi::EM_X86_64, 0, &segments, 0x6000);
    let dynamic = [
        abi::DT_RELA as u64, 0x2000, abi::DT_RELASZ as u64, 72, abi::DT_RELAENT as u64, 24, 0, 0,
    ];
    set_words(&mut file, 0x1000, &dynamic);
    set_words(&mut file, 0x2000, &rela);
    let mut platform = Platform::with_file(&file);
    platform.frames.end = FRAMES + 0x2000;
    let loaded = platform.loader().load_kernel(
        &file,
        PhysAddr::new(KERNEL),
        KernelPlacement::Auto,
        false,
        None,
    );
    assert!(matches!(loaded, Err(LoadError::FrameAllocationFailed)));
    assert_eq!(platform.word(0x3000), 0x3001);
    assert_eq!(platform.word(0x4000), 0x4001);
    assert_eq!(platform.table.find(0x4000).unwrap().1, FRAMES + 0x1000);
    assert_eq!(platform.table.find(0x5000).unwrap().1, KERNEL + 0x5000);
    assert!(platform.file_is_unchanged(&file));
}
