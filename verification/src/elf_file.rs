//! The parts of an ELF file that loading a kernel reads.

use vstd::prelude::*;

verus! {

/// File type of an executable with fixed addresses.
pub const ET_EXEC: u16 = 2;

/// File type of a position-independent executable.
pub const ET_DYN: u16 = 3;

/// Segment that is loaded into memory.
pub const PT_LOAD: u32 = 1;

/// Segment that holds the dynamic table.
pub const PT_DYNAMIC: u32 = 2;

/// Segment that holds the thread-local storage template.
pub const PT_TLS: u32 = 7;

/// Segment that becomes read-only after relocation.
pub const PT_GNU_RELRO: u32 = 0x6474_e552;

/// Segment flag: executable.
pub const PF_X: u32 = 1;

/// Segment flag: writable.
pub const PF_W: u32 = 2;

/// Dynamic tag: address of the RELA table.
pub const DT_RELA: i64 = 7;

/// Dynamic tag: size of the RELA table.
pub const DT_RELASZ: i64 = 8;

/// Dynamic tag: size of one RELA entry.
pub const DT_RELAENT: i64 = 9;

/// Dynamic tag: size of the RELR table.
pub const DT_RELRSZ: i64 = 35;

/// Dynamic tag: address of the RELR table.
pub const DT_RELR: i64 = 36;

/// Dynamic tag: size of one RELR entry.
pub const DT_RELRENT: i64 = 37;

/// The fields of the ELF file header that loading reads.
#[derive(Clone, Copy, Debug, PartialEq, Eq, Structural)]
pub struct FileHeader {
    /// File type.
    pub e_type: u16,
    /// Machine type.
    pub e_machine: u16,
    /// Virtual address of the entry point.
    pub e_entry: u64,
}

/// One entry of the program header table.
#[derive(Clone, Copy, Debug, PartialEq, Eq, Structural)]
pub struct ProgramHeader {
    /// Program segment type.
    pub p_type: u32,
    /// Offset into the ELF file where this segment begins.
    pub p_offset: u64,
    /// Virtual address where this segment should be loaded.
    pub p_vaddr: u64,
    /// Size of this segment in the file.
    pub p_filesz: u64,
    /// Size of this segment in memory.
    pub p_memsz: u64,
    /// Flags for this segment.
    pub p_flags: u32,
    /// File and memory alignment.
    pub p_align: u64,
}

/// One entry of the dynamic table.
#[derive(Clone, Copy, Debug, PartialEq, Eq, Structural)]
pub struct DynamicEntry {
    /// What the entry describes.
    pub d_tag: i64,
    /// The value or address.
    pub d_val: u64,
}

/// The dynamic table of an ELF file.
#[derive(Debug)]
pub enum DynamicTable {
    /// The table lies outside the file.
    Unreadable,
    /// The file has no dynamic table.
    Absent,
    /// The entries of the table.
    Entries(Vec<DynamicEntry>),
}

/// The dynamic table of an ELF file, as a value.
pub enum DynamicView {
    Unreadable,
    Absent,
    Entries(Seq<DynamicEntry>),
}

impl View for DynamicTable {
    type V = DynamicView;

    open spec fn view(&self) -> DynamicView {
        match self {
            DynamicTable::Unreadable => DynamicView::Unreadable,
            DynamicTable::Absent => DynamicView::Absent,
            DynamicTable::Entries(entries) => DynamicView::Entries(entries@),
        }
    }
}

/// What loading reads of an ELF file.
#[derive(Debug)]
pub struct ElfFile {
    /// The file header.
    pub header: FileHeader,
    /// The program headers, if the file has a program header table.
    pub segments: Option<Vec<ProgramHeader>>,
    /// The dynamic table.
    pub dynamic: DynamicTable,
}

/// What loading reads of an ELF file, as a value.
pub struct ElfView {
    pub header: FileHeader,
    pub segments: Option<Seq<ProgramHeader>>,
    pub dynamic: DynamicView,
}

impl View for ElfFile {
    type V = ElfView;

    open spec fn view(&self) -> ElfView {
        ElfView {
            header: self.header,
            segments: segment_list(self.segments),
            dynamic: self.dynamic@,
        }
    }
}

/// A program header table as a value.
pub open spec fn segment_list(segments: Option<Vec<ProgramHeader>>) -> Option<
    Seq<ProgramHeader>,
> {
    match segments {
        Some(segments) => Some(segments@),
        None => None,
    }
}

/// One entry of the section header table.
#[derive(Clone, Copy, Debug, PartialEq, Eq, Structural)]
pub struct SectionHeader {
    /// Offset of the name in the section name table.
    pub sh_name: u32,
    /// Section type.
    pub sh_type: u32,
    /// Section flags.
    pub sh_flags: u64,
    /// Address at which the section is loaded.
    pub sh_addr: u64,
    /// Offset into the file where the section starts.
    pub sh_offset: u64,
    /// Section size in bytes.
    pub sh_size: u64,
    /// Meaning depends on the section type.
    pub sh_link: u32,
    /// Meaning depends on the section type.
    pub sh_info: u32,
    /// Address alignment.
    pub sh_addralign: u64,
    /// Size of one entry if the section is a table.
    pub sh_entsize: u64,
}

/// The result of looking for a section.
#[derive(Clone, Copy, Debug, PartialEq, Eq, Structural)]
pub enum SectionLookup {
    /// The section headers or their names cannot be read.
    Unreadable,
    /// The file has no section of that name.
    Absent,
    /// The header of the section.
    Found(SectionHeader),
}

/// The file header that `elf::ElfBytes::minimal_parse` reads from a file, or `None` where it
/// finds no valid ELF file.
pub uninterp spec fn elf_header(bytes: Seq<u8>) -> Option<FileHeader>;

/// The program headers that `elf::ElfBytes::segments` gives for a file.
pub uninterp spec fn elf_segments(bytes: Seq<u8>) -> Option<Seq<ProgramHeader>>;

/// The dynamic table that `elf::ElfBytes::dynamic` gives for a file.
pub uninterp spec fn elf_dynamic(bytes: Seq<u8>) -> DynamicView;

/// What `elf::ElfBytes::section_header_by_name` finds in a file.
pub uninterp spec fn elf_section(bytes: Seq<u8>, name: Seq<char>) -> SectionLookup;

/// The bytes that `elf::ElfBytes::section_data` gives for a section of a file.
pub uninterp spec fn elf_section_data(bytes: Seq<u8>, section: SectionHeader) -> Option<Seq<u8>>;

/// Section type: the section has no bytes in the file.
pub const SHT_NOBITS: u32 = 8;

/// Section flag: the bytes of the section are compressed.
pub const SHF_COMPRESSED: u64 = 0x800;

/// The bytes of the file that a section header points to.
pub open spec fn section_range(bytes: Seq<u8>, section: SectionHeader) -> Option<Seq<u8>> {
    let end = section.sh_offset + section.sh_size;
    if end <= bytes.len() {
        Some(bytes.subrange(section.sh_offset as int, end))
    } else {
        None
    }
}

/// The bytes of a section as a value.
pub open spec fn data_list(data: Option<Vec<u8>>) -> Option<Seq<u8>> {
    match data {
        Some(data) => Some(data@),
        None => None,
    }
}

/// What loading reads of the file with the given bytes.
pub open spec fn parsed(bytes: Seq<u8>) -> Option<ElfView> {
    match elf_header(bytes) {
        Some(header) => Some(
            ElfView { header, segments: elf_segments(bytes), dynamic: elf_dynamic(bytes) },
        ),
        None => None,
    }
}

/// Parses the file header with `elf::ElfBytes::minimal_parse`.
///
/// Taken on trust: the result depends on the bytes alone, and is called `elf_header`.
#[verifier::external_body]
fn read_header(bytes: &[u8]) -> (r: Option<FileHeader>)
    ensures
        r == elf_header(bytes@),
{
    let elf = elf::ElfBytes::<elf::endian::AnyEndian>::minimal_parse(bytes).ok()?;
    let ehdr = elf.ehdr;
    Some(FileHeader { e_type: ehdr.e_type, e_machine: ehdr.e_machine, e_entry: ehdr.e_entry })
}

/// Reads the program headers with `elf::ElfBytes::segments`.
///
/// Taken on trust: the result depends on the bytes alone, and is called `elf_segments`. There is
/// no table where the file cannot be parsed.
#[verifier::external_body]
fn read_segments(bytes: &[u8]) -> (r: Option<Vec<ProgramHeader>>)
    ensures
        segment_list(r) == elf_segments(bytes@),
{
    let elf = elf::ElfBytes::<elf::endian::AnyEndian>::minimal_parse(bytes).ok()?;
    let convert = |p: elf::segment::ProgramHeader| ProgramHeader {
        p_type: p.p_type,
        p_offset: p.p_offset,
        p_vaddr: p.p_vaddr,
        p_filesz: p.p_filesz,
        p_memsz: p.p_memsz,
        p_flags: p.p_flags,
        p_align: p.p_align,
    };
    Some(elf.segments()?.iter().map(convert).collect())
}

/// Reads the dynamic table with `elf::ElfBytes::dynamic`.
///
/// Taken on trust: the result depends on the bytes alone, and is called `elf_dynamic`. The table
/// is unreadable where the file cannot be parsed.
#[verifier::external_body]
fn read_dynamic(bytes: &[u8]) -> (r: DynamicTable)
    ensures
        r@ == elf_dynamic(bytes@),
{
    let elf = elf::ElfBytes::<elf::endian::AnyEndian>::minimal_parse(bytes);
    match elf.and_then(|elf| elf.dynamic()) {
        Err(_) => DynamicTable::Unreadable,
        Ok(None) => DynamicTable::Absent,
        Ok(Some(table)) => DynamicTable::Entries(
            table.iter().map(|d| DynamicEntry { d_tag: d.d_tag, d_val: d.d_val() }).collect(),
        ),
    }
}

/// Looks for a section with `elf::ElfBytes::section_header_by_name`.
///
/// Taken on trust: the result depends on the bytes and the name alone, and is called
/// `elf_section`. The headers are unreadable where the file cannot be parsed.
#[verifier::external_body]
pub(crate) fn find_section(bytes: &[u8], name: &str) -> (r: SectionLookup)
    ensures
        r == elf_section(bytes@, name@),
{
    let elf = elf::ElfBytes::<elf::endian::AnyEndian>::minimal_parse(bytes);
    match elf.and_then(|elf| elf.section_header_by_name(name)) {
        Err(_) => SectionLookup::Unreadable,
        Ok(None) => SectionLookup::Absent,
        Ok(Some(s)) => SectionLookup::Found(SectionHeader {
            sh_name: s.sh_name, sh_type: s.sh_type, sh_flags: s.sh_flags, sh_addr: s.sh_addr,
            sh_offset: s.sh_offset, sh_size: s.sh_size, sh_link: s.sh_link, sh_info: s.sh_info,
            sh_addralign: s.sh_addralign, sh_entsize: s.sh_entsize,
        }),
    }
}

/// Reads the bytes of a section with `elf::ElfBytes::section_data`.
///
/// Taken on trust: the result depends on the bytes of the file and the header alone, and is
/// called `elf_section_data`. For a section of a valid file that has bytes in the file and is not
/// compressed, it is the range of the file that the header gives, if that lies inside the file.
/// There are no bytes where the file cannot be parsed.
#[verifier::external_body]
pub(crate) fn read_section(bytes: &[u8], section: SectionHeader) -> (r: Option<Vec<u8>>)
    ensures
        data_list(r) == elf_section_data(bytes@, section),
        elf_header(bytes@) is Some && section.sh_type != SHT_NOBITS && section.sh_flags
            & SHF_COMPRESSED == 0 ==> data_list(r) == section_range(bytes@, section),
{
    let elf = elf::ElfBytes::<elf::endian::AnyEndian>::minimal_parse(bytes).ok()?;
    let s = section;
    let header = elf::section::SectionHeader {
        sh_name: s.sh_name, sh_type: s.sh_type, sh_flags: s.sh_flags, sh_addr: s.sh_addr,
        sh_offset: s.sh_offset, sh_size: s.sh_size, sh_link: s.sh_link, sh_info: s.sh_info,
        sh_addralign: s.sh_addralign, sh_entsize: s.sh_entsize,
    };
    Some(elf.section_data(&header).ok()?.0.to_vec())
}

/// Parse the parts of an ELF file that loading reads. `None` if it is no valid ELF file.
pub fn parse(bytes: &[u8]) -> (r: Option<ElfFile>)
    ensures
        match r {
            Some(elf) => parsed(bytes@) == Some(elf@),
            None => parsed(bytes@) is None,
        },
{
    match read_header(bytes) {
        Some(header) => Some(
            ElfFile { header, segments: read_segments(bytes), dynamic: read_dynamic(bytes) },
        ),
        None => None,
    }
}

/// Whether the bytes are a valid ELF file.
pub fn is_elf(bytes: &[u8]) -> (r: bool)
    ensures
        r == (elf_header(bytes@) is Some),
{
    read_header(bytes).is_some()
}

} // verus!
