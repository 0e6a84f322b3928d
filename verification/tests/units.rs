use ::x86_64::structures::paging::PageTableFlags;
use elf::abi;
use kernel_elf_loader::arith;
use kernel_elf_loader::elf_file;
use kernel_elf_loader::elf_loading::elf_flags_to_page_flags;
use kernel_elf_loader::mapping::choose_page_size;
use kernel_elf_loader::relocation::{self, relative_reloc_type, CopiedPages, MAX_COPIED_PAGES};
use kernel_elf_loader::x86_64::{self, FlagFailure, FrameSize, MapFailure, UnmapFailure, X86_64PageSize};
use kernel_elf_loader::x86_bridge::{self, X86FrameAllocator, X86PageSize};
use kernel_elf_loader::{
    FrameAllocator, LoadError, MapError, PageFlags, PageSize, PhysAddr, UnmapError, VirtAddr,
};

#[test]
fn rounding_moves_to_a_multiple() {
    assert_eq!(arith::align_up(0, 0x1000), 0);
    assert_eq!(arith::align_up(1, 0x1000), 0x1000);
    assert_eq!(arith::align_up(0x1000, 0x1000), 0x1000);
    assert_eq!(arith::align_up(10, 3), 12);
    assert_eq!(arith::align_down(0x1FFF, 0x1000), 0x1000);
    assert_eq!(arith::align_down(u64::MAX, 16), u64::MAX - 15);
    assert!(arith::is_power_of_two(1));
    assert!(arith::is_power_of_two(1 << 63));
    assert!(!arith::is_power_of_two(0));
    assert!(!arith::is_power_of_two(12));
}

#[test]
fn offsets_wrap_around_the_address_space() {
    assert_eq!(arith::rebase(0x1000, 0x20), 0x1020);
    assert_eq!(arith::rebase(0x1000, -0x1001), u64::MAX);
    assert_eq!(arith::rebase(u64::MAX, 2), 1);
    assert_eq!(arith::rebase(0, i64::MIN), 1 << 63);
    assert_eq!(arith::wrapping_sum(u64::MAX, 8), 7);
    assert_eq!(arith::wrapping_sum(1, 2), 3);
    assert_eq!(arith::to_signed(5), 5);
    assert_eq!(arith::to_signed(u64::MAX), -1);
    assert_eq!(arith::to_signed(1 << 63), i64::MIN);
}

#[test]
fn words_are_stored_with_the_least_significant_byte_first() {
    let word = 0x0102_0304_0506_0708;
    assert_eq!(arith::u64_to_le(word), [8, 7, 6, 5, 4, 3, 2, 1]);
    assert_eq!(arith::u64_from_le(&[8, 7, 6, 5, 4, 3, 2, 1]), word);
    assert_eq!(arith::u64_from_le(&arith::u64_to_le(u64::MAX)), u64::MAX);
    assert_eq!(arith::u64_to_le(word), word.to_le_bytes());
}

#[test]
fn addresses_are_aligned_in_place() {
    let virt = VirtAddr::new(0x1234);
    assert_eq!(virt.as_u64(), 0x1234);
    assert!(!virt.is_aligned(0x1000));
    assert!(virt.is_aligned(4));
    assert_eq!(virt.align_down(0x1000), VirtAddr::new(0x1000));
    assert_eq!(virt.align_up(0x1000), VirtAddr::new(0x2000));
    let phys = PhysAddr::new(0x2000);
    assert_eq!(phys.as_u64(), 0x2000);
    assert!(phys.is_aligned(0x1000));
    assert_eq!(phys.align_down(0x1000), phys);
    assert_eq!(phys.align_up(0x1000), phys);
    assert_eq!(PhysAddr::new(0x2001).align_up(0x1000), PhysAddr::new(0x3000));
    assert!(VirtAddr::new(1) < VirtAddr::new(2));
    assert_eq!(PageFlags::default(), PageFlags { writable: false, executable: false });
}

#[test]
fn errors_have_a_text() {
    let text = |e: LoadError| e.message();
    assert_eq!(text(LoadError::InvalidElf("no LOAD segments")), "invalid ELF: no LOAD segments");
    assert_eq!(text(LoadError::UnsupportedElfType(1)), "unsupported ELF type: 1");
    assert_eq!(text(LoadError::UnsupportedElfType(65280)), "unsupported ELF type: 65280");
    assert_eq!(text(LoadError::UnsupportedMachine(0)), "unsupported ELF machine type: 0");
    assert_eq!(
        text(LoadError::UnsupportedRelocation(0x4ab)),
        "unsupported relocation type: 0x4ab"
    );
    assert_eq!(
        text(LoadError::UnsupportedRelocation(u32::MAX)),
        format!("unsupported relocation type: {:#x}", u32::MAX)
    );
    assert_eq!(text(LoadError::FrameAllocationFailed), "frame allocation failed");
    for e in [
        MapError::AlreadyMapped,
        MapError::FrameAllocationFailed,
        MapError::InvalidAddress,
        MapError::NotMapped,
        MapError::ParentEntryHugePage,
    ] {
        assert_eq!(
            text(LoadError::from(e)),
            format!("page table mapping failed: {e:?}")
        );
    }
    assert_eq!(text(LoadError::NotPageAligned), "kernel ELF not page-aligned in physical memory");
    assert_eq!(text(LoadError::AddressSpaceFull), "no free virtual address space");
    assert_eq!(text(LoadError::InvalidPlacement), "invalid kernel placement");
    assert_eq!(text(LoadError::TooManyCopiedPages), "too many CoW pages during relocations");
}

#[test]
fn copied_pages_are_listed_up_to_a_limit() {
    let mut copied = CopiedPages::new();
    assert!(!copied.contains(0));
    for page in 0..MAX_COPIED_PAGES as u64 {
        copied.insert(page * 0x1000).unwrap();
    }
    assert!(copied.contains(0));
    assert!(copied.contains(0x3F_F000));
    assert!(!copied.contains(0x40_0000));
    assert!(matches!(copied.insert(0x40_0000), Err(LoadError::TooManyCopiedPages)));
    assert!(!copied.contains(0x40_0000));
}

#[test]
fn elf_constants_have_their_values() {
    assert_eq!(relative_reloc_type(abi::EM_X86_64), Some(abi::R_X86_64_RELATIVE));
    assert_eq!(relative_reloc_type(abi::EM_AARCH64), Some(abi::R_AARCH64_RELATIVE));
    assert_eq!(relative_reloc_type(abi::EM_RISCV), Some(abi::R_RISCV_RELATIVE));
    assert_eq!(relative_reloc_type(abi::EM_386), None);
    assert_eq!(relocation::EM_X86_64, abi::EM_X86_64);
    assert_eq!(elf_file::ET_EXEC, abi::ET_EXEC);
    assert_eq!(elf_file::ET_DYN, abi::ET_DYN);
    assert_eq!(elf_file::PT_LOAD, abi::PT_LOAD);
    assert_eq!(elf_file::PT_DYNAMIC, abi::PT_DYNAMIC);
    assert_eq!(elf_file::PT_TLS, abi::PT_TLS);
    assert_eq!(elf_file::PT_GNU_RELRO, abi::PT_GNU_RELRO);
    assert_eq!(elf_file::PF_W, abi::PF_W);
    assert_eq!(elf_file::PF_X, abi::PF_X);
    assert_eq!(elf_file::DT_RELA, abi::DT_RELA);
    assert_eq!(elf_file::DT_RELASZ, abi::DT_RELASZ);
    assert_eq!(elf_file::DT_RELAENT, abi::DT_RELAENT);
    assert_eq!(elf_file::SHT_NOBITS, abi::SHT_NOBITS);
    assert_eq!(elf_file::SHF_COMPRESSED, abi::SHF_COMPRESSED as u64);
}

#[test]
fn segment_flags_become_page_flags() {
    let flags = |writable, executable| PageFlags { writable, executable };
    assert_eq!(elf_flags_to_page_flags(0), flags(false, false));
    assert_eq!(elf_flags_to_page_flags(abi::PF_R), flags(false, false));
    assert_eq!(elf_flags_to_page_flags(abi::PF_R | abi::PF_W), flags(true, false));
    assert_eq!(elf_flags_to_page_flags(abi::PF_R | abi::PF_X), flags(false, true));
    assert_eq!(elf_flags_to_page_flags(u32::MAX), flags(true, true));
}

#[test]
fn page_flags_become_page_table_flags() {
    let (present, writable, no_execute) =
        (PageTableFlags::PRESENT, PageTableFlags::WRITABLE, PageTableFlags::NO_EXECUTE);
    assert_eq!(x86_64::PARENT_FLAGS, (present | writable).bits());
    for (flags, word) in [
        ((false, false), present | no_execute),
        ((true, false), present | writable | no_execute),
        ((false, true), present),
        ((true, true), present | writable),
    ] {
        let flags = PageFlags { writable: flags.0, executable: flags.1 };
        assert_eq!(x86_64::to_x86_64_flags(flags), word.bits());
        assert_eq!(x86_64::from_x86_64_flags(word.bits()), flags);
        assert_eq!(x86_bridge::to_x86_flags(flags), word.bits());
        let more = word | PageTableFlags::ACCESSED | PageTableFlags::GLOBAL;
        assert_eq!(x86_bridge::from_x86_flags(more.bits()), flags);
    }
}

#[test]
fn mapper_failures_become_errors() {
    assert_eq!(
        x86_64::map_to_error(MapFailure::FrameAllocationFailed),
        MapError::FrameAllocationFailed
    );
    assert_eq!(
        x86_64::map_to_error(MapFailure::ParentEntryHugePage),
        MapError::ParentEntryHugePage
    );
    assert_eq!(x86_64::map_to_error(MapFailure::PageAlreadyMapped), MapError::AlreadyMapped);
    assert_eq!(x86_64::update_flags_error(FlagFailure::PageNotMapped), MapError::NotMapped);
    assert_eq!(
        x86_64::update_flags_error(FlagFailure::ParentEntryHugePage),
        MapError::ParentEntryHugePage
    );
    assert_eq!(
        x86_64::unmap_error(UnmapFailure::ParentEntryHugePage),
        UnmapError::ParentEntryHugePage
    );
    assert_eq!(x86_64::unmap_error(UnmapFailure::PageNotMapped), UnmapError::NotMapped);
    assert_eq!(x86_64::unmap_error(UnmapFailure::InvalidFrameAddress), UnmapError::NotMapped);
}

#[test]
fn misaligned_addresses_are_refused() {
    let at = |virt, phys| (VirtAddr::new(virt), PhysAddr::new(phys));
    let check = |(virt, phys), size| x86_64::check_addresses(virt, phys, size);
    assert_eq!(check(at(0x1000, 0x2000), X86_64PageSize::Size4KiB), Ok(()));
    assert_eq!(
        check(at(0x1001, 0x2000), X86_64PageSize::Size4KiB),
        Err(MapError::InvalidAddress)
    );
    assert_eq!(
        check(at(0x20_0000, 0x1000), X86_64PageSize::Size2MiB),
        Err(MapError::InvalidAddress)
    );
    assert_eq!(check(at(0x20_0000, 0), X86_64PageSize::Size2MiB), Ok(()));
    let check = |(virt, phys), size| x86_bridge::check_addresses(virt, phys, size);
    assert_eq!(check(at(0x1000, 0x2000), X86PageSize::Size4KiB), Ok(()));
    assert_eq!(check(at(0x1001, 0x2000), X86PageSize::Size4KiB), Err(MapError::InvalidAddress));
    assert_eq!(
        check(at(0x20_0000, 0x1000), X86PageSize::Size2MiB),
        Err(MapError::InvalidAddress)
    );
}

#[test]
fn translation_adds_the_offset_in_the_frame() {
    let word = PageTableFlags::PRESENT.bits();
    let executable = PageFlags { writable: false, executable: true };
    assert_eq!(
        x86_64::translated(0x1000, 0x234, FrameSize::Size4KiB, word),
        (PhysAddr::new(0x1234), executable, X86_64PageSize::Size4KiB)
    );
    assert_eq!(
        x86_64::translated(0x20_0000, 0x1_0000, FrameSize::Size2MiB, word),
        (PhysAddr::new(0x21_0000), executable, X86_64PageSize::Size2MiB)
    );
    assert_eq!(
        x86_64::translated(0x4000_0000, 0, FrameSize::Size1GiB, word | 2),
        (
            PhysAddr::new(0x4000_0000),
            PageFlags { writable: true, executable: true },
            X86_64PageSize::Size2MiB
        )
    );
}

#[test]
fn page_sizes_are_in_descending_order() {
    assert_eq!(X86PageSize::BASE.bytes(), 4096);
    assert_eq!(X86PageSize::huge_page_sizes(), [X86PageSize::Size2MiB]);
    assert_eq!(X86PageSize::Size2MiB.bytes(), 2 * 1024 * 1024);
    assert_eq!(X86_64PageSize::BASE.bytes(), 4096);
    assert_eq!(X86_64PageSize::huge_page_sizes(), [X86_64PageSize::Size2MiB]);
    assert_eq!(X86_64PageSize::Size2MiB.bytes(), 2 * 1024 * 1024);
}

#[test]
fn the_largest_page_that_fits_is_used() {
    let choose = |virt, phys, left, huge| -> X86PageSize {
        choose_page_size(VirtAddr::new(virt), PhysAddr::new(phys), left, huge)
    };
    assert_eq!(choose(0x40_0000, 0x20_0000, 0x20_0000, true), X86PageSize::Size2MiB);
    assert_eq!(choose(0x40_0000, 0x20_0000, 0x20_0000, false), X86PageSize::Size4KiB);
    assert_eq!(choose(0x40_0000, 0x20_0000, 0x1F_FFFF, true), X86PageSize::Size4KiB);
    assert_eq!(choose(0x40_1000, 0x20_0000, 0x40_0000, true), X86PageSize::Size4KiB);
    assert_eq!(choose(0x40_0000, 0x20_1000, 0x40_0000, true), X86PageSize::Size4KiB);
}

/// Hands out the listed frames from the last to the first.
struct FrameList(Vec<u64>);

impl FrameAllocator<X86PageSize> for FrameList {
    fn allocate_frame(&mut self, size: X86PageSize) -> Option<PhysAddr> {
        assert_eq!(size, X86PageSize::Size4KiB);
        self.0.pop().map(PhysAddr::new)
    }
}

fn frames_down_from(start: u64, count: u64) -> FrameList {
    FrameList((0..count).rev().map(|i| start + i * 0x1000).collect())
}

#[test]
fn large_frames_are_made_of_contiguous_small_ones() {
    let mut frames = frames_down_from(0x20_0000, 514);
    let mut allocator = X86FrameAllocator::new(&mut frames);
    let large = allocator.allocate_frame(X86PageSize::Size2MiB);
    assert_eq!(large, Some(PhysAddr::new(0x20_0000)));
    let small = allocator.allocate_frame(X86PageSize::Size4KiB);
    assert_eq!(small, Some(PhysAddr::new(0x40_0000)));
    // The next frame is not aligned to 2 MiB.
    assert_eq!(allocator.allocate_frame(X86PageSize::Size2MiB), None);
    assert_eq!(allocator.allocate_frame(X86PageSize::Size4KiB), None);
    // One frame is missing.
    let mut frames = frames_down_from(0x20_0000, 511);
    assert_eq!(X86FrameAllocator::new(&mut frames).allocate_frame(X86PageSize::Size2MiB), None);
    // There is a gap between the frames.
    let mut frames = frames_down_from(0x20_0000, 513);
    frames.0.remove(200);
    assert_eq!(X86FrameAllocator::new(&mut frames).allocate_frame(X86PageSize::Size2MiB), None);
}

/// Hands out the frames of a list and keeps what was requested and what was answered.
struct Recorder {
    frames: FrameList,
    answers: Vec<(X86PageSize, Option<u64>)>,
}

impl FrameAllocator<X86PageSize> for Recorder {
    fn allocate_frame(&mut self, size: X86PageSize) -> Option<PhysAddr> {
        let frame = self.frames.allocate_frame(size);
        self.answers.push((size, frame.map(|f| f.as_u64())));
        frame
    }
}

fn recorder(frames: FrameList) -> Recorder {
    Recorder { frames, answers: Vec::new() }
}

#[test]
fn small_frames_are_requested_as_they_are() {
    let mut inner = recorder(frames_down_from(0x7000, 1));
    let mut allocator = X86FrameAllocator::new(&mut inner);
    assert_eq!(allocator.allocate_frame(X86PageSize::Size4KiB), Some(PhysAddr::new(0x7000)));
    assert_eq!(allocator.allocate_frame(X86PageSize::Size4KiB), None);
    assert_eq!(
        inner.answers,
        vec![(X86PageSize::Size4KiB, Some(0x7000)), (X86PageSize::Size4KiB, None)]
    );
}

#[test]
fn a_large_frame_requests_each_of_its_small_frames_once() {
    let mut inner = recorder(frames_down_from(0x40_0000, 600));
    let large = X86FrameAllocator::new(&mut inner).allocate_frame(X86PageSize::Size2MiB);
    assert_eq!(large, Some(PhysAddr::new(0x40_0000)));
    assert_eq!(inner.answers.len(), 512);
    for (k, answer) in inner.answers.iter().enumerate() {
        assert_eq!(*answer, (X86PageSize::Size4KiB, Some(0x40_0000 + k as u64 * 0x1000)));
    }
}

#[test]
fn a_large_frame_stops_at_the_first_frame_that_does_not_fit() {
    // The first frame is not aligned.
    let mut inner = recorder(frames_down_from(0x20_1000, 600));
    let large = X86FrameAllocator::new(&mut inner).allocate_frame(X86PageSize::Size2MiB);
    assert_eq!(large, None);
    assert_eq!(inner.answers, vec![(X86PageSize::Size4KiB, Some(0x20_1000))]);
    // There is a gap after three frames.
    let mut frames = frames_down_from(0x20_0000, 600);
    frames.0.remove(600 - 4);
    let mut inner = recorder(frames);
    let large = X86FrameAllocator::new(&mut inner).allocate_frame(X86PageSize::Size2MiB);
    assert_eq!(large, None);
    let got: Vec<Option<u64>> = inner.answers.iter().map(|(_, frame)| *frame).collect();
    assert_eq!(got, vec![Some(0x20_0000), Some(0x20_1000), Some(0x20_2000), Some(0x20_4000)]);
}

#[test]
fn a_large_frame_stops_at_the_first_refusal() {
    let mut inner = recorder(frames_down_from(0x20_0000, 2));
    let large = X86FrameAllocator::new(&mut inner).allocate_frame(X86PageSize::Size2MiB);
    assert_eq!(large, None);
    let got: Vec<Option<u64>> = inner.answers.iter().map(|(_, frame)| *frame).collect();
    assert_eq!(got, vec![Some(0x20_0000), Some(0x20_1000), None]);
    let mut inner = recorder(frames_down_from(0x20_0000, 0));
    let large = X86FrameAllocator::new(&mut inner).allocate_frame(X86PageSize::Size2MiB);
    assert_eq!(large, None);
    assert_eq!(inner.answers, vec![(X86PageSize::Size4KiB, None)]);
}
