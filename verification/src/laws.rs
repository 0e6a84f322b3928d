//! What loading a kernel promises, in terms of its file: of the headers, of the bytes, and of the
//! memory that the kernel sees in the end.

use crate::address_space;
use crate::arith;
use crate::elf_file;
use crate::elf_file::{
    DynamicEntry, DynamicView, ElfView, ProgramHeader, ET_DYN, ET_EXEC, PT_DYNAMIC, PT_GNU_RELRO, PT_LOAD, PT_TLS,
};
use crate::elf_loading;
use crate::error::LoadError;
use crate::loader;
use crate::loader::KernelPlacement;
use crate::mapping;
use crate::paging;
use crate::paging::Cell;
use crate::physical;
use crate::physical::{Answer, Physical, Run};
use crate::properties;
use crate::region_laws;
use crate::relocation;
use crate::relocation::Virtual;
use crate::relocation_laws;
use crate::relocation_laws::Tables;
use crate::state::Snapshot;
use crate::traits::{PageSize, PhysAddr, VirtAddr};
use crate::LoadedKernel;
use vstd::prelude::*;

verus! {

/// An address of the file, moved by the load base. Addresses wrap around at 64 bits.
pub open spec fn moved(addr: u64, load_base: i64) -> int {
    (addr + load_base) % 0x1_0000_0000_0000_0000
}

/// A file that loads can be parsed and lies at a page boundary.
pub proof fn lemma_loaded_file_is_parsed<S: PageSize>(
    bytes: Seq<u8>,
    before: Snapshot<S>,
    regions: Seq<(u64, u64)>,
    kernel_phys_base: PhysAddr,
    placement: KernelPlacement,
    use_huge_pages: bool,
    rng: Option<u64>,
    after: Snapshot<S>,
    regions_after: Seq<(u64, u64)>,
    r: Result<LoadedKernel, LoadError>,
)
    requires
        loader::file_loaded(
            bytes,
            before,
            regions,
            kernel_phys_base,
            placement,
            use_huge_pages,
            rng,
            after,
            regions_after,
            r,
        ),
    ensures
        kernel_phys_base.0 as int % paging::base::<S>() != 0 ==> r
            == Err::<LoadedKernel, LoadError>(LoadError::NotPageAligned),
        r is Ok ==> {
            &&& kernel_phys_base.0 as int % paging::base::<S>() == 0
            &&& elf_file::parsed(bytes) matches Some(elf) && loader::kernel_loaded(
                elf,
                before,
                regions,
                kernel_phys_base,
                placement,
                use_huge_pages,
                rng,
                after,
                regions_after,
                r,
            )
        },
        // A file that is refused before anything is mapped leaves all as it was.
        r == Err::<LoadedKernel, LoadError>(LoadError::NotPageAligned) && kernel_phys_base.0 as int
            % paging::base::<S>() != 0 ==> after == before && regions_after == regions,
        kernel_phys_base.0 as int % paging::base::<S>() == 0 && elf_file::parsed(bytes) is None
            ==> r is Err && after == before && regions_after == regions,
{
}

/// The offset of the loaded kernel, and what follows from it for the entry point: a kernel with
/// fixed addresses is not moved, a kernel with a fixed base is moved by it, and the entry point
/// moves along.
pub proof fn lemma_kernel_is_moved<S: PageSize>(
    elf: ElfView,
    before: Snapshot<S>,
    regions: Seq<(u64, u64)>,
    kernel_phys_base: PhysAddr,
    placement: KernelPlacement,
    use_huge_pages: bool,
    rng: Option<u64>,
    after: Snapshot<S>,
    regions_after: Seq<(u64, u64)>,
    kernel: LoadedKernel,
)
    requires
        loader::kernel_loaded(
            elf,
            before,
            regions,
            kernel_phys_base,
            placement,
            use_huge_pages,
            rng,
            after,
            regions_after,
            Ok(kernel),
        ),
        loader::kernel_placeable::<S>(elf, regions, placement, rng),
    ensures
        elf.header.e_type == ET_EXEC || elf.header.e_type == ET_DYN,
        elf.header.e_type == ET_EXEC ==> placement is Auto && kernel.load_base == 0,
        elf.header.e_type == ET_DYN ==> (placement matches KernelPlacement::Fixed(base)
            ==> moved(0, kernel.load_base) == base.0),
        kernel.entry_point.0 == moved(elf.header.e_entry, kernel.load_base),
{
    match placement {
        KernelPlacement::Fixed(base) => {
            let n = arith::address_space_size();
            if base.0 as int != arith::signed(base.0) {
                vstd::arithmetic::div_mod::lemma_fundamental_div_mod_converse(
                    arith::signed(base.0),
                    n,
                    -1,
                    base.0 as int,
                );
            } else {
                vstd::arithmetic::div_mod::lemma_small_mod(base.0 as nat, n as nat);
            }
        },
        KernelPlacement::Auto => {},
    }
}

/// Mapping the LOAD segments never stops at a word that crosses a page boundary.
proof fn lemma_load_never_crosses<S: PageSize>(
    vm: Map<int, Cell<S>>,
    image: Map<int, u8>,
    segments: Seq<ProgramHeader>,
    next: int,
    kernel_phys_base: PhysAddr,
    load_base: i64,
    use_huge_pages: bool,
)
    ensures
        !(elf_loading::load_run(
            vm,
            image,
            segments,
            next,
            kernel_phys_base,
            load_base,
            use_huge_pages,
        ) is Crossing),
    decreases segments.len() - next,
{
    if 0 <= next < segments.len() {
        let now = if segments[next].p_type == PT_LOAD {
            match elf_loading::load_segment_run(
                vm,
                image,
                segments[next],
                kernel_phys_base,
                load_base,
                use_huge_pages,
            ) {
                Run::Done(Virtual { vm: now, .. }) => now,
                _ => vm,
            }
        } else {
            vm
        };
        lemma_load_never_crosses(
            now,
            image,
            segments,
            next + 1,
            kernel_phys_base,
            load_base,
            use_huge_pages,
        );
    }
}

/// The TLS template of a loaded kernel is that of its TLS segment: it lies where the segment
/// lies, and has its sizes. A file without a TLS segment has no template, and a file with more
/// than one does not load.
pub proof fn lemma_tls_template<S: PageSize>(
    elf: ElfView,
    before: Snapshot<S>,
    regions: Seq<(u64, u64)>,
    kernel_phys_base: PhysAddr,
    placement: KernelPlacement,
    use_huge_pages: bool,
    rng: Option<u64>,
    after: Snapshot<S>,
    regions_after: Seq<(u64, u64)>,
    kernel: LoadedKernel,
)
    requires
        loader::kernel_loaded(
            elf,
            before,
            regions,
            kernel_phys_base,
            placement,
            use_huge_pages,
            rng,
            after,
            regions_after,
            Ok(kernel),
        ),
    ensures
        elf.segments matches Some(segments) && {
            &&& forall|i: int|
                0 <= i < segments.len() && (#[trigger] segments[i]).p_type == PT_TLS ==> {
                    let t = kernel.tls_template.unwrap();
                    &&& kernel.tls_template is Some
                    &&& t.start_addr.0 == moved(segments[i].p_vaddr, kernel.load_base)
                    &&& t.file_size == segments[i].p_filesz
                    &&& t.mem_size == segments[i].p_memsz
                }
            &&& kernel.tls_template is Some ==> exists|i: int|
                0 <= i < segments.len() && (#[trigger] segments[i]).p_type == PT_TLS
            &&& forall|i: int, j: int|
                0 <= i < j < segments.len() && (#[trigger] segments[i]).p_type == PT_TLS
                    ==> (#[trigger] segments[j]).p_type != PT_TLS
        },
{
    let segments = elf.segments.unwrap();
    let load_base = kernel.load_base;
    lemma_load_never_crosses(
        before.vm(),
        before.memory,
        segments,
        0,
        kernel_phys_base,
        load_base,
        use_huge_pages,
    );
    properties::lemma_one_tls_segment(
        before.vm(),
        before.memory,
        segments,
        0,
        kernel_phys_base,
        load_base,
        use_huge_pages,
    );
    properties::lemma_first_tls(segments, segments.len() as int, load_base);
}

/// Part of a valid page table is valid.
proof fn lemma_part_is_valid<S: PageSize>(
    part: Map<u64, paging::PageEntry<S>>,
    whole: Map<u64, paging::PageEntry<S>>,
)
    requires
        paging::wf_entries(whole),
        forall|k: u64| #[trigger]
            part.contains_key(k) ==> whole.contains_key(k) && whole[k].size == part[k].size,
    ensures
        forall|j: u64, k: u64, v: int|
            #[trigger] paging::covers(part, j, v) && #[trigger] paging::covers(part, k, v)
                ==> j == k,
        forall|k: u64, v: int| #[trigger]
            paging::covers(part, k, v) ==> paging::covers(whole, k, v),
{
    assert forall|j: u64, k: u64, v: int|
        #[trigger] paging::covers(part, j, v) && #[trigger] paging::covers(part, k, v) implies j
        == k by {
        assert(paging::covers(whole, j, v));
        assert(paging::covers(whole, k, v));
    }
}

/// The pages of two page tables are the same, but for the permission to write, which the second
/// gives to no page to which the first does not.
pub open spec fn only_protected<S: PageSize>(
    before: Map<u64, paging::PageEntry<S>>,
    after: Map<u64, paging::PageEntry<S>>,
) -> bool {
    &&& forall|k: u64| #[trigger] after.contains_key(k) == before.contains_key(k)
    &&& forall|k: u64| #[trigger]
        before.contains_key(k) ==> {
            &&& after[k].size == before[k].size
            &&& after[k].phys == before[k].phys
            &&& after[k].flags.executable == before[k].flags.executable
            &&& after[k].flags.writable ==> before[k].flags.writable
        }
}

/// Two steps that only protect pages are one.
proof fn lemma_protected_twice<S: PageSize>(
    first: Map<u64, paging::PageEntry<S>>,
    second: Map<u64, paging::PageEntry<S>>,
    third: Map<u64, paging::PageEntry<S>>,
)
    requires
        only_protected(first, second),
        only_protected(second, third),
    ensures
        only_protected(first, third),
{
    assert forall|k: u64| #[trigger] third.contains_key(k) == first.contains_key(k) by {
        assert(second.contains_key(k) == first.contains_key(k));
    }
    assert forall|k: u64| #[trigger] first.contains_key(k) implies {
        &&& third[k].size == first[k].size
        &&& third[k].phys == first[k].phys
        &&& third[k].flags.executable == first[k].flags.executable
        &&& third[k].flags.writable ==> first[k].flags.writable
    } by {
        assert(second.contains_key(k));
    }
}

/// Protecting one page on the way to a valid page table.
#[verifier::spinoff_prover]
proof fn lemma_page_is_protected<S: PageSize>(
    memory: Physical<S>,
    at: u64,
    next: Physical<S>,
    last: Map<u64, paging::PageEntry<S>>,
)
    requires
        memory.with_protected_page(at) == Run::Done(next),
        only_protected(next.entries, last),
        paging::wf_entries(last),
    ensures
        only_protected(memory.entries, next.entries),
        at as int % paging::base::<S>() == 0 ==> forall|k: u64, v: int|
            #![trigger paging::covers(last, k, v)]
            paging::covers(last, k, v) && at <= v < at + paging::base::<S>()
                ==> !last[k].flags.writable,
{
    let b = paging::base::<S>();
    lemma_part_is_valid(next.entries, last);
    assert forall|k: u64| #[trigger] memory.entries.contains_key(k) implies last.contains_key(k)
        && last[k].size == memory.entries[k].size by {
        assert(next.entries.contains_key(k));
    }
    lemma_part_is_valid(memory.entries, last);
    if next.entries != memory.entries {
        let j = paging::page_at(memory.entries, at as int);
        assert(paging::covers(memory.entries, j, at as int));
        assert(next.entries.contains_key(at));
        assert(last.contains_key(at));
        assert(paging::wf_entry(at, last[at]));
        assert(paging::covers(last, j, at as int));
        assert(paging::covers(last, at, at as int));
        assert(j == at);
    }
    if at as int % b == 0 {
        assert forall|k: u64, v: int|
            #![trigger paging::covers(last, k, v)]
            paging::covers(last, k, v) && at <= v < at + b implies !last[k].flags.writable by {
            paging::lemma_block_in_page(last, k, at as int, v);
            assert(next.entries.contains_key(k));
            assert(memory.entries.contains_key(k));
            assert(paging::covers(memory.entries, k, at as int));
            assert(paging::mapped(memory.entries, at as int));
            let j = paging::page_at(memory.entries, at as int);
            assert(paging::covers(memory.entries, j, at as int));
            assert(j == k);
            if memory.entries[k].flags.writable {
                assert(next.entries.contains_key(at));
                assert(!next.entries[at].flags.writable);
                if at != k {
                    assert(last.contains_key(at));
                    assert(paging::wf_entry(at, last[at]));
                    assert(paging::covers(last, at, at as int));
                    assert(paging::covers(last, k, at as int));
                }
            } else {
                assert(next.entries == memory.entries);
            }
            assert(!next.entries[k].flags.writable);
        }
    }
}

/// Protecting the pages of a range takes the permission to write from each of them, and changes
/// nothing else.
#[verifier::spinoff_prover]
proof fn lemma_range_is_protected<S: PageSize>(
    memory: Physical<S>,
    page: int,
    end: int,
    last: Physical<S>,
)
    requires
        memory.with_protected_pages(page, end) == Run::Done(last),
        paging::wf_entries(last.entries),
    ensures
        only_protected(memory.entries, last.entries),
        0 <= page && page % paging::base::<S>() == 0 && end <= arith::address_space_size()
            ==> forall|k: u64, v: int|
            #![trigger paging::covers(last.entries, k, v)]
            paging::covers(last.entries, k, v) && page <= v < end
                ==> !last.entries[k].flags.writable,
    decreases
            (if page < end {
                end - page
            } else {
                0
            }),
{
    let b = paging::base::<S>();
    if page < end {
        let at = page as u64;
        match memory.with_protected_page(at) {
            Run::Done(next) => {
                lemma_range_is_protected(next, page + b, end, last);
                lemma_page_is_protected(memory, at, next, last.entries);
                lemma_protected_twice(memory.entries, next.entries, last.entries);
                if 0 <= page && page % b == 0 && end <= arith::address_space_size() {
                    vstd::arithmetic::div_mod::lemma_mod_self_0(b);
                    arith::lemma_multiples_add(page, b, b);
                    assert forall|k: u64, v: int|
                        #![trigger paging::covers(last.entries, k, v)]
                        paging::covers(last.entries, k, v) && page <= v
                            < end implies !last.entries[k].flags.writable by {
                        if v < page + b {
                            assert(at == page);
                        }
                    }
                }
            },
            _ => {},
        }
    }
}

/// Protecting the RELRO segments from number `next` on takes the permission to write from all
/// of their pages, and changes nothing else.
proof fn lemma_segments_are_protected<S: PageSize>(
    memory: Physical<S>,
    segments: Seq<ProgramHeader>,
    next: int,
    load_base: i64,
    last: Physical<S>,
)
    requires
        0 <= next,
        elf_loading::relro_steps(memory, segments, next, load_base) == Run::Done(last),
        paging::wf_entries(last.entries),
    ensures
        only_protected(memory.entries, last.entries),
        last.memory == memory.memory,
        forall|i: int, k: u64, v: int|
            #![trigger segments[i], paging::covers(last.entries, k, v)]
            next <= i < segments.len() && segments[i].p_type == PT_GNU_RELRO
                && elf_loading::relro_in_range::<S>(segments[i], load_base) && paging::covers(last.entries, k, v) && moved(
                segments[i].p_vaddr,
                load_base,
            ) <= v < moved(segments[i].p_vaddr, load_base) + segments[i].p_memsz
                ==> !last.entries[k].flags.writable,
    decreases segments.len() - next,
{
    let b = paging::base::<S>();
    if next < segments.len() {
        let phdr = segments[next];
        if phdr.p_type == PT_GNU_RELRO {
            let start = elf_loading::relro_start::<S>(phdr, load_base);
            let end = elf_loading::relro_end::<S>(phdr, load_base);
            match memory.with_protected_pages(start, end) {
                Run::Done(then) => {
                    lemma_segments_are_protected(then, segments, next + 1, load_base, last);
                    lemma_memory_kept(memory, start, end);
                    lemma_part_is_valid(then.entries, last.entries);
                    assert(paging::wf_entries(then.entries)) by {
                        assert forall|k: u64| #[trigger] then.entries.contains_key(
                            k,
                        ) implies paging::wf_entry(k, then.entries[k]) by {
                            assert(last.entries.contains_key(k));
                            assert(paging::wf_entry(k, last.entries[k]));
                        }
                    }
                    lemma_range_is_protected(memory, start, end, then);
                    lemma_protected_twice(memory.entries, then.entries, last.entries);
                    let virt = moved(phdr.p_vaddr, load_base);
                    arith::lemma_floor_facts(virt, b);
                    arith::lemma_floor_facts(virt + phdr.p_memsz - 1, b);
                    assert forall|i: int, k: u64, v: int|
                        #![trigger segments[i], paging::covers(last.entries, k, v)]
                        next <= i < segments.len() && segments[i].p_type == PT_GNU_RELRO
                            && elf_loading::relro_in_range::<S>(segments[i], load_base)
                            && paging::covers(last.entries, k, v) && moved(
                            segments[i].p_vaddr,
                            load_base,
                        ) <= v < moved(segments[i].p_vaddr, load_base)
                            + segments[i].p_memsz implies !last.entries[k].flags.writable by {
                        if i == next {
                            assert(then.entries.contains_key(k));
                            assert(paging::covers(then.entries, k, v));
                            assert(virt as u64 == elf_loading::segment_virt(phdr, load_base));
                        }
                    }
                },
                _ => {},
            }
        } else {
            lemma_segments_are_protected(memory, segments, next + 1, load_base, last);
        }
    }
}

/// Protecting pages writes no byte.
proof fn lemma_memory_kept<S: PageSize>(memory: Physical<S>, page: int, end: int)
    ensures
        memory.with_protected_pages(page, end) matches Run::Done(last) ==> last.memory
            == memory.memory,
    decreases
            (if page < end {
                end - page
            } else {
                0
            }),
{
    if page < end && paging::base::<S>() > 0 {
        match memory.with_protected_page(page as u64) {
            Run::Done(next) => {
                lemma_memory_kept(next, page + paging::base::<S>(), end);
            },
            _ => {},
        }
    }
}

/// Once a kernel is loaded, no address of a RELRO segment can be written.
pub proof fn lemma_relro_cannot_be_written<S: PageSize>(
    elf: ElfView,
    before: Snapshot<S>,
    regions: Seq<(u64, u64)>,
    kernel_phys_base: PhysAddr,
    placement: KernelPlacement,
    use_huge_pages: bool,
    rng: Option<u64>,
    after: Snapshot<S>,
    regions_after: Seq<(u64, u64)>,
    kernel: LoadedKernel,
)
    requires
        loader::kernel_loaded(
            elf,
            before,
            regions,
            kernel_phys_base,
            placement,
            use_huge_pages,
            rng,
            after,
            regions_after,
            Ok(kernel),
        ),
        loader::loadable::<S>(
            elf,
            regions,
            before.available,
            kernel_phys_base,
            placement,
            rng,
        ),
    ensures
        elf.segments matches Some(segments) && forall|i: int, v: int|
            #![trigger segments[i], after.vm()[v]]
            0 <= i < segments.len() && segments[i].p_type == PT_GNU_RELRO && moved(
                segments[i].p_vaddr,
                kernel.load_base,
            ) <= v < moved(segments[i].p_vaddr, kernel.load_base) + segments[i].p_memsz
                && after.vm().contains_key(v) ==> !after.vm()[v].flags.writable,
{
    let load_base = kernel.load_base;
    let segments = elf.segments.unwrap();
    let run = elf_loading::elf_physical::<S>(elf, kernel_phys_base, load_base, use_huge_pages);
    let copied = choose|copied: Seq<u64>| #[trigger]
        physical::tracks(run, before, Seq::empty(), after, copied, Ok(()));
    let given = choose|given: Seq<Answer<S>>| #[trigger]
        physical::ends(run, before, Seq::empty(), given, after, copied, Ok(()));
    let none = Seq::<Answer<S>>::empty();
    let start = physical::at(before, Seq::empty(), given + none);
    let last = physical::at(after, copied, none);
    assert(run(start) == physical::ended(after, copied, none, Ok(())));
    match elf_loading::load_steps(
        start,
        segments,
        0,
        kernel_phys_base,
        load_base,
        use_huge_pages,
    ) {
        Run::Done(loaded) => {
            match elf_loading::relocate_physical::<S>(segments, 0, elf, load_base)(loaded) {
                Run::Done(relocated) => {
                    lemma_segments_are_protected(relocated, segments, 0, load_base, last);
                },
                _ => {},
            }
        },
        _ => {},
    }
    assert forall|i: int, v: int|
        #![trigger segments[i], after.vm()[v]]
        0 <= i < segments.len() && segments[i].p_type == PT_GNU_RELRO && moved(
            segments[i].p_vaddr,
            load_base,
        ) <= v < moved(segments[i].p_vaddr, load_base) + segments[i].p_memsz
            && after.vm().contains_key(v) implies !after.vm()[v].flags.writable by {
        assert(elf_loading::segment_in_range::<S>(segments[i], kernel_phys_base, load_base));
        let k = paging::page_at(after.entries, v);
        assert(paging::covers(after.entries, k, v));
    }
}

/// The virtual memory of a valid page table has the same flags everywhere in a page.
proof fn lemma_table_is_uniform<S: PageSize>(
    entries: Map<u64, paging::PageEntry<S>>,
    memory: Map<int, u8>,
)
    requires
        paging::wf_entries(entries),
    ensures
        relocation_laws::uniform(paging::virtual_memory(entries, memory)),
{
    let vm = paging::virtual_memory(entries, memory);
    let b = paging::base::<S>();
    assert forall|page: int, v: int|
        #![trigger vm[page], vm[v]]
        page % b == 0 && page <= v < page + b && vm.contains_key(page) && vm.contains_key(
            v,
        ) implies vm[v].flags == vm[page].flags by {
        let k = paging::page_at(entries, v);
        assert(paging::covers(entries, k, v));
        paging::lemma_block_in_page(entries, k, page, v);
        assert(paging::covers(entries, k, page));
        paging::lemma_page_at(entries, k, page);
        paging::lemma_page_at(entries, k, v);
    }
}

/// Memory that shows one of two memories has the same flags everywhere in a page if both have.
proof fn lemma_union_is_uniform<S: PageSize>(first: Map<int, Cell<S>>, second: Map<int, Cell<S>>)
    requires
        relocation_laws::uniform(first),
        relocation_laws::uniform(second),
        properties::page_wise(second),
    ensures
        relocation_laws::uniform(first.union_prefer_right(second)),
{
    let both = first.union_prefer_right(second);
    let b = paging::base::<S>();
    assert forall|page: int, v: int|
        #![trigger both[page], both[v]]
        page % b == 0 && page <= v < page + b && both.contains_key(page) && both.contains_key(
            v,
        ) implies both[v].flags == both[page].flags by {
        assert(second.contains_key(page) == second.contains_key(v));
        if second.contains_key(page) {
            assert(second[v].flags == second[page].flags);
        } else {
            assert(first[v].flags == first[page].flags);
        }
    }
}

/// Zeroing the rest of a page keeps the flags the same everywhere in a page.
proof fn lemma_tail_is_uniform<S: PageSize>(
    vm: Map<int, Cell<S>>,
    start: int,
    flags: crate::traits::PageFlags,
)
    requires
        paging::base::<S>() > 0,
        relocation_laws::uniform(vm),
    ensures
        relocation_laws::uniform(elf_loading::zero_tail(vm, start, flags)),
{
    let b = paging::base::<S>();
    let page = arith::floor_to(start, b);
    let after = elf_loading::zero_tail(vm, start, flags);
    arith::lemma_floor_facts(start, b);
    assert forall|p: int, v: int|
        #![trigger after[p], after[v]]
        p % b == 0 && p <= v < p + b && after.contains_key(p) && after.contains_key(v) implies
        after[v].flags == after[p].flags by {
        assert(vm[v].flags == vm[p].flags);
        if start % b != 0 {
            if page <= v < page + b && p != page {
                arith::lemma_multiples_apart(p, page, b);
            }
            if page <= p < page + b && p != page {
                arith::lemma_multiples_apart(page, p, b);
            }
        }
    }
}

/// Mapping a LOAD segment keeps the flags the same everywhere in a page.
proof fn lemma_segment_is_uniform<S: PageSize>(
    vm: Map<int, Cell<S>>,
    image: Map<int, u8>,
    phdr: ProgramHeader,
    kernel_phys_base: PhysAddr,
    load_base: i64,
    use_huge_pages: bool,
)
    requires
        mapping::valid_sizes::<S>(),
        properties::page_wise(vm),
        relocation_laws::uniform(vm),
        elf_loading::load_in_range::<S>(phdr, kernel_phys_base, load_base),
    ensures
        elf_loading::load_segment_run(
            vm,
            image,
            phdr,
            kernel_phys_base,
            load_base,
            use_huge_pages,
        ) matches Run::Done(Virtual { vm: after, .. }) ==> relocation_laws::uniform(after),
{
    let b = paging::base::<S>();
    let virt = elf_loading::segment_virt(phdr, load_base);
    let flags = elf_loading::segment_flags(phdr.p_flags);
    let plan = paging::virtual_memory(
        elf_loading::file_plan::<S>(phdr, kernel_phys_base, load_base, use_huge_pages),
        image,
    );
    let with_file = if phdr.p_filesz > 0 {
        properties::lemma_file_part(
            vm,
            image,
            phdr,
            kernel_phys_base,
            load_base,
            use_huge_pages,
        );
        lemma_union_is_uniform(vm, plan);
        vm.union_prefer_right(plan)
    } else {
        vm
    };
    if phdr.p_memsz > phdr.p_filesz {
        let start = virt + phdr.p_filesz;
        let end = virt + phdr.p_memsz;
        arith::lemma_ceil_facts(start, b);
        arith::lemma_ceil_facts(end, b);
        let zeros = paging::zero_cells::<S>(
            arith::ceil_to(start, b),
            arith::ceil_to(end, b),
            flags,
        );
        properties::lemma_zeros_page_wise::<S>(
            arith::ceil_to(start, b),
            arith::ceil_to(end, b),
            flags,
        );
        lemma_tail_is_uniform(with_file, start, flags);
        lemma_union_is_uniform(elf_loading::zero_tail(with_file, start, flags), zeros);
    }
}

/// Mapping the LOAD segments keeps the flags the same everywhere in a page.
proof fn lemma_segments_are_uniform<S: PageSize>(
    vm: Map<int, Cell<S>>,
    image: Map<int, u8>,
    segments: Seq<ProgramHeader>,
    next: int,
    kernel_phys_base: PhysAddr,
    load_base: i64,
    use_huge_pages: bool,
)
    requires
        mapping::valid_sizes::<S>(),
        properties::page_wise(vm),
        relocation_laws::uniform(vm),
        0 <= next,
        properties::segments_apart::<S>(segments, next, kernel_phys_base, load_base),
    ensures
        elf_loading::load_run(
            vm,
            image,
            segments,
            next,
            kernel_phys_base,
            load_base,
            use_huge_pages,
        ) matches Run::Done(Virtual { vm: after, .. }) ==> relocation_laws::uniform(after),
    decreases segments.len() - next,
{
    if next < segments.len() {
        let now = if segments[next].p_type == PT_LOAD {
            lemma_segment_is_uniform(
                vm,
                image,
                segments[next],
                kernel_phys_base,
                load_base,
                use_huge_pages,
            );
            properties::lemma_segment_is_shown(
                vm,
                image,
                segments[next],
                kernel_phys_base,
                load_base,
                use_huge_pages,
            );
            match elf_loading::load_segment_run(
                vm,
                image,
                segments[next],
                kernel_phys_base,
                load_base,
                use_huge_pages,
            ) {
                Run::Done(Virtual { vm: now, .. }) => now,
                _ => vm,
            }
        } else {
            vm
        };
        lemma_segments_are_uniform(
            now,
            image,
            segments,
            next + 1,
            kernel_phys_base,
            load_base,
            use_huge_pages,
        );
    }
}

/// A file with no dynamic segment is not relocated, and one with a single dynamic segment is
/// relocated once.
proof fn lemma_relocated_once<W: relocation::Words>(
    memory: W,
    segments: Seq<ProgramHeader>,
    next: int,
    dynamic: DynamicView,
    load_base: i64,
    e_machine: u16,
    only: int,
)
    requires
        0 <= next,
        forall|i: int|
            next <= i < segments.len() && i != only ==> (#[trigger] segments[i]).p_type
                != PT_DYNAMIC,
        next <= only < segments.len() ==> segments[only].p_type == PT_DYNAMIC,
    ensures
        elf_loading::relocate_run(memory, segments, next, dynamic, load_base, e_machine) == if next
            <= only < segments.len() {
            elf_loading::dynamic_run(memory, dynamic, load_base, e_machine)
        } else {
            Run::Done(memory)
        },
    decreases segments.len() - next,
{
    if next < segments.len() {
        let then = if next == only {
            match elf_loading::dynamic_run(memory, dynamic, load_base, e_machine) {
                Run::Done(then) => then,
                _ => memory,
            }
        } else {
            memory
        };
        lemma_relocated_once(then, segments, next + 1, dynamic, load_base, e_machine, only);
    }
}

/// No page of a RELRO segment from number `next` on holds the address.
pub open spec fn outside_relro<S: PageSize>(
    segments: Seq<ProgramHeader>,
    next: int,
    load_base: i64,
    v: int,
) -> bool {
    let page = arith::floor_to(v, paging::base::<S>());
    forall|i: int|
        next <= i < segments.len() && (#[trigger] segments[i]).p_type == PT_GNU_RELRO ==> {
            &&& segments[i].p_memsz > 0
            &&& page + paging::base::<S>() <= moved(segments[i].p_vaddr, load_base) || moved(
                segments[i].p_vaddr,
                load_base,
            ) + segments[i].p_memsz <= page
        }
}

/// Protecting the RELRO segments changes no address that lies outside their pages.
proof fn lemma_outside_relro_is_kept<S: PageSize>(
    vm: Map<int, Cell<S>>,
    segments: Seq<ProgramHeader>,
    next: int,
    load_base: i64,
    v: int,
)
    requires
        paging::base::<S>() > 0,
        0 <= next,
        outside_relro::<S>(segments, next, load_base, v),
        vm.contains_key(v),
    ensures
        elf_loading::relro_vm(vm, segments, next, load_base).contains_key(v),
        elf_loading::relro_vm(vm, segments, next, load_base)[v] == vm[v],
    decreases segments.len() - next,
{
    if next < segments.len() {
        let b = paging::base::<S>();
        let phdr = segments[next];
        let then = if phdr.p_type == PT_GNU_RELRO {
            let virt = moved(phdr.p_vaddr, load_base);
            let page = arith::floor_to(v, b);
            assert(virt == elf_loading::segment_virt(phdr, load_base));
            assert(segments[next].p_memsz > 0);
            arith::lemma_floor_facts(v, b);
            arith::lemma_floor_facts(virt, b);
            arith::lemma_floor_facts(virt + phdr.p_memsz - 1, b);
            vstd::arithmetic::div_mod::lemma_mod_self_0(b);
            arith::lemma_multiples_add(page, b, b);
            let lo = elf_loading::relro_start::<S>(phdr, load_base);
            let last = arith::floor_to(virt + phdr.p_memsz - 1, b);
            if page + b <= virt {
                if lo < page + b {
                    arith::lemma_multiples_apart(lo, page + b, b);
                }
            } else if last + b > page {
                arith::lemma_multiples_add(last, b, b);
                arith::lemma_multiples_apart(last, page, b);
            }
            elf_loading::protected(vm, lo, elf_loading::relro_end::<S>(phdr, load_base))
        } else {
            vm
        };
        assert(then.contains_key(v) && then[v] == vm[v]);
        lemma_outside_relro_is_kept(then, segments, next + 1, load_base, v);
    }
}

/// The LOAD segments of a file can be mapped one beside the other: each lies at the same distance
/// from a page boundary in the file and in memory, as the ELF format demands, and no two of them
/// share a page.
pub open spec fn laid_out<S: PageSize>(
    segments: Seq<ProgramHeader>,
    kernel_phys_base: PhysAddr,
    load_base: i64,
) -> bool {
    &&& forall|i: int|
        0 <= i < segments.len() && (#[trigger] segments[i]).p_type == PT_LOAD ==> moved(
            segments[i].p_vaddr,
            load_base,
        ) % paging::base::<S>() == (kernel_phys_base.0 + segments[i].p_offset)
            % paging::base::<S>()
    &&& forall|i: int, j: int|
        0 <= i < j < segments.len() && (#[trigger] segments[i]).p_type == PT_LOAD && (
        #[trigger] segments[j]).p_type == PT_LOAD ==> {
            ||| pages_end::<S>(segments[i], load_base) <= pages_start::<S>(segments[j], load_base)
            ||| pages_end::<S>(segments[j], load_base) <= pages_start::<S>(segments[i], load_base)
        }
}

/// The first address of the pages of a segment.
pub open spec fn pages_start<S: PageSize>(phdr: ProgramHeader, load_base: i64) -> int {
    arith::floor_to(moved(phdr.p_vaddr, load_base), paging::base::<S>())
}

/// The end of the pages of a segment.
pub open spec fn pages_end<S: PageSize>(phdr: ProgramHeader, load_base: i64) -> int {
    let size = if phdr.p_memsz > phdr.p_filesz {
        phdr.p_memsz
    } else {
        phdr.p_filesz
    };
    arith::ceil_to(moved(phdr.p_vaddr, load_base) + size, paging::base::<S>())
}

/// Memory holds a LOAD segment: the bytes of the file, which lies in the physical memory `image`,
/// and zeros behind them. Whether they can be written and executed is what the header says.
pub open spec fn holds_segment<S: PageSize>(
    vm: Map<int, Cell<S>>,
    image: Map<int, u8>,
    phdr: ProgramHeader,
    kernel_phys_base: PhysAddr,
    load_base: i64,
) -> bool {
    let virt = moved(phdr.p_vaddr, load_base);
    forall|v: int|
        virt <= v < virt + phdr.p_memsz || virt <= v < virt + phdr.p_filesz ==> {
            &&& #[trigger] vm.contains_key(v)
            &&& vm[v].byte == if v < virt + phdr.p_filesz {
                image[kernel_phys_base.0 + phdr.p_offset + (v - virt)]
            } else {
                0
            }
            &&& vm[v].flags.writable == (phdr.p_flags & 2 != 0)
            &&& vm[v].flags.executable == (phdr.p_flags & 1 != 0)
        }
}

/// No LOAD segment has a page with the address.
pub open spec fn outside_pages<S: PageSize>(
    segments: Seq<ProgramHeader>,
    load_base: i64,
    v: int,
) -> bool {
    forall|i: int|
        0 <= i < segments.len() && (#[trigger] segments[i]).p_type == PT_LOAD ==> !(pages_start::<
            S,
        >(segments[i], load_base) <= v < pages_end::<S>(segments[i], load_base))
}

/// Memory as the LOAD segments give it: each of them is there, and nothing else that was not
/// there before.
pub open spec fn segments_mapped<S: PageSize>(
    before: Map<int, Cell<S>>,
    image: Map<int, u8>,
    segments: Seq<ProgramHeader>,
    kernel_phys_base: PhysAddr,
    load_base: i64,
    mapped: Map<int, Cell<S>>,
) -> bool {
    &&& forall|i: int|
        0 <= i < segments.len() && (#[trigger] segments[i]).p_type == PT_LOAD ==> holds_segment(
            mapped,
            image,
            segments[i],
            kernel_phys_base,
            load_base,
        )
    &&& forall|v: int|
        outside_pages::<S>(segments, load_base, v) ==> #[trigger] mapped.contains_key(v)
            == before.contains_key(v) && (mapped.contains_key(v) ==> mapped[v] == before[v])
}

/// What is different once the segments are relocated and protected. What is mapped and what can
/// be executed stays the same. A file without a dynamic segment is not relocated. Where there is
/// one, its tables are applied, and no other byte changes. What could be written still can, but
/// for the pages of RELRO segments, and no page can be written that could not before, but for the
/// pages of relocated words.
pub open spec fn segments_finished<S: PageSize>(
    mapped: Map<int, Cell<S>>,
    elf: ElfView,
    segments: Seq<ProgramHeader>,
    load_base: i64,
    after: Map<int, Cell<S>>,
) -> bool {
    &&& forall|v: int| #[trigger] after.contains_key(v) == mapped.contains_key(v)
    &&& forall|v: int| #[trigger]
        mapped.contains_key(v) ==> after[v].flags.executable == mapped[v].flags.executable && (
        outside_relro::<S>(segments, 0, load_base, v) && mapped[v].flags.writable
            ==> after[v].flags.writable)
    &&& no_dynamic(segments) ==> forall|v: int| #[trigger]
        mapped.contains_key(v) ==> after[v].byte == mapped[v].byte && (after[v].flags.writable
            ==> mapped[v].flags.writable)
    &&& forall|only: int, tables: Tables|
        one_dynamic(segments, only) && #[trigger] tables_of(elf, only, load_base, mapped, tables)
            ==> tables_applied(mapped, load_base, tables, after)
}

/// The relocation tables are applied, and no other byte is different.
pub open spec fn tables_applied<S: PageSize>(
    mapped: Map<int, Cell<S>>,
    load_base: i64,
    tables: Tables,
    after: Map<int, Cell<S>>,
) -> bool {
    let words = relocation_laws::named_words(tables, load_base, mapped);
    &&& relocation_laws::relocated(tables, load_base, mapped, after)
    &&& forall|v: int| #[trigger]
        mapped.contains_key(v) ==> {
            &&& !relocation_laws::in_words(words, v) ==> after[v].byte == mapped[v].byte
            &&& after[v].flags.writable ==> mapped[v].flags.writable
                || relocation_laws::page_has_word::<S>(words, v)
        }
}

/// The file has no dynamic segment.
pub open spec fn no_dynamic(segments: Seq<ProgramHeader>) -> bool {
    forall|i: int| 0 <= i < segments.len() ==> (#[trigger] segments[i]).p_type != PT_DYNAMIC
}

/// Mapping the LOAD segments gives a memory that holds them.
proof fn lemma_segments_mapped<S: PageSize>(
    vm: Map<int, Cell<S>>,
    image: Map<int, u8>,
    segments: Seq<ProgramHeader>,
    kernel_phys_base: PhysAddr,
    load_base: i64,
    use_huge_pages: bool,
    mapped: Map<int, Cell<S>>,
)
    requires
        mapping::valid_sizes::<S>(),
        properties::page_wise(vm),
        relocation_laws::uniform(vm),
        laid_out::<S>(segments, kernel_phys_base, load_base),
        forall|i: int|
            0 <= i < segments.len() ==> elf_loading::segment_in_range::<S>(
                #[trigger] segments[i],
                kernel_phys_base,
                load_base,
            ),
        elf_loading::load_run(
            vm,
            image,
            segments,
            0,
            kernel_phys_base,
            load_base,
            use_huge_pages,
        ) matches Run::Done(done) && done.vm == mapped,
    ensures
        segments_mapped(vm, image, segments, kernel_phys_base, load_base, mapped),
        properties::page_wise(mapped),
        relocation_laws::uniform(mapped),
{
    assert(properties::segments_apart::<S>(segments, 0, kernel_phys_base, load_base)) by {
        assert forall|i: int|
            0 <= i < segments.len() && (#[trigger] segments[i]).p_type
                == PT_LOAD implies elf_loading::load_in_range::<S>(
            segments[i],
            kernel_phys_base,
            load_base,
        ) && properties::congruent::<S>(segments[i], kernel_phys_base, load_base) by {
            assert(elf_loading::segment_in_range::<S>(segments[i], kernel_phys_base, load_base));
        }
    }
    properties::lemma_segments_are_shown(
        vm,
        image,
        segments,
        0,
        kernel_phys_base,
        load_base,
        use_huge_pages,
    );
    lemma_segments_are_uniform(
        vm,
        image,
        segments,
        0,
        kernel_phys_base,
        load_base,
        use_huge_pages,
    );
    assert forall|i: int|
        0 <= i < segments.len() && (#[trigger] segments[i]).p_type == PT_LOAD implies holds_segment(
        mapped,
        image,
        segments[i],
        kernel_phys_base,
        load_base,
    ) by {
        assert(properties::segment_shown(
            mapped,
            image,
            segments[i],
            kernel_phys_base,
            load_base,
        ));
    }
    assert forall|v: int|
        outside_pages::<S>(segments, load_base, v) implies #[trigger] mapped.contains_key(v)
        == vm.contains_key(v) && (mapped.contains_key(v) ==> mapped[v] == vm[v]) by {
        assert(properties::outside_segments::<S>(segments, 0, load_base, v));
    }
}

/// Applying the tables of a file and protecting its segments.
proof fn lemma_tables_applied<S: PageSize>(
    mapped: Map<int, Cell<S>>,
    elf: ElfView,
    segments: Seq<ProgramHeader>,
    load_base: i64,
    only: int,
    tables: Tables,
    relocated: Map<int, Cell<S>>,
    after: Map<int, Cell<S>>,
)
    requires
        properties::page_wise(mapped),
        relocation_laws::uniform(mapped),
        one_dynamic(segments, only),
        tables_of(elf, only, load_base, mapped, tables),
        elf_loading::relocate_run(
            Virtual { vm: mapped, copied: Seq::empty() },
            segments,
            0,
            elf.dynamic,
            load_base,
            elf.header.e_machine,
        ) matches Run::Done(done) && done.vm == relocated,
        properties::same_bytes(relocated, after),
        forall|v: int|
            relocated.contains_key(v) ==> ((#[trigger] after[v]).flags.writable
                ==> relocated[v].flags.writable),
    ensures
        tables_applied(mapped, load_base, tables, after),
{
    lemma_relocated_once(
        Virtual { vm: mapped, copied: Seq::empty() },
        segments,
        0,
        elf.dynamic,
        load_base,
        elf.header.e_machine,
        only,
    );
    let entries = elf.dynamic->Entries_0;
    relocation_laws::lemma_dynamic_segment_relocates(
        mapped,
        Seq::empty(),
        entries,
        load_base,
        elf.header.e_machine,
        tables,
    );
    relocation_laws::lemma_dynamic_segment_changes(
        mapped,
        Seq::empty(),
        entries,
        load_base,
        elf.header.e_machine,
        tables,
    );
    lemma_protection_keeps_words(tables, load_base, mapped, relocated, after);
    let words = relocation_laws::named_words(tables, load_base, mapped);
    assert forall|v: int| #[trigger] mapped.contains_key(v) implies {
        &&& !relocation_laws::in_words(words, v) ==> after[v].byte == mapped[v].byte
        &&& after[v].flags.writable ==> mapped[v].flags.writable
            || relocation_laws::page_has_word::<S>(words, v)
    } by {
        assert(relocated.contains_key(v) == mapped.contains_key(v));
        assert(after[v].byte == relocated[v].byte);
    }
}

/// Relocating and protecting the segments that are mapped.
proof fn lemma_segments_finished<S: PageSize>(
    mapped: Map<int, Cell<S>>,
    elf: ElfView,
    segments: Seq<ProgramHeader>,
    load_base: i64,
    after: Map<int, Cell<S>>,
)
    requires
        properties::page_wise(mapped),
        relocation_laws::uniform(mapped),
        elf_loading::finish_run(mapped, segments, elf, load_base) matches Run::Done(done) && done.vm
            == after,
    ensures
        segments_finished(mapped, elf, segments, load_base, after),
{
    let start = Virtual { vm: mapped, copied: Seq::empty() };
    let run = elf_loading::relocate_run(
        start,
        segments,
        0,
        elf.dynamic,
        load_base,
        elf.header.e_machine,
    );
    let relocated = run->Done_0.vm;
    relocation_laws::lemma_relocation_steps(
        start,
        segments,
        0,
        elf.dynamic,
        load_base,
        elf.header.e_machine,
    );
    properties::lemma_relro_is_protected(relocated, segments, 0, load_base);
    assert forall|v: int| #[trigger] after.contains_key(v) == mapped.contains_key(v) by {
        assert(relocated.contains_key(v) == mapped.contains_key(v));
    }
    assert forall|v: int| #[trigger] mapped.contains_key(v) implies after[v].flags.executable
        == mapped[v].flags.executable && (outside_relro::<S>(segments, 0, load_base, v)
        && mapped[v].flags.writable ==> after[v].flags.writable) by {
        assert(relocated.contains_key(v) == mapped.contains_key(v));
        if outside_relro::<S>(segments, 0, load_base, v) {
            lemma_outside_relro_is_kept(relocated, segments, 0, load_base, v);
        }
    }
    if no_dynamic(segments) {
        lemma_relocated_once(
            start,
            segments,
            0,
            elf.dynamic,
            load_base,
            elf.header.e_machine,
            -1,
        );
    }
    assert forall|only: int, tables: Tables|
        one_dynamic(segments, only) && #[trigger] tables_of(
            elf,
            only,
            load_base,
            mapped,
            tables,
        ) implies tables_applied(mapped, load_base, tables, after) by {
        lemma_tables_applied(
            mapped,
            elf,
            segments,
            load_base,
            only,
            tables,
            relocated,
            after,
        );
    }
}

/// What a loaded kernel sees. There is a memory `mapped` that holds every LOAD segment as its
/// header and the file say, and nothing else that was not there before. From it the memory of the
/// loaded kernel differs by relocation and protection alone.
pub proof fn lemma_kernel_image<S: PageSize>(
    elf: ElfView,
    before: Snapshot<S>,
    regions: Seq<(u64, u64)>,
    kernel_phys_base: PhysAddr,
    placement: KernelPlacement,
    use_huge_pages: bool,
    rng: Option<u64>,
    after: Snapshot<S>,
    regions_after: Seq<(u64, u64)>,
    kernel: LoadedKernel,
) -> (mapped: Map<int, Cell<S>>)
    requires
        loader::kernel_loaded(
            elf,
            before,
            regions,
            kernel_phys_base,
            placement,
            use_huge_pages,
            rng,
            after,
            regions_after,
            Ok(kernel),
        ),
        loader::loadable::<S>(
            elf,
            regions,
            before.available,
            kernel_phys_base,
            placement,
            rng,
        ),
        before.sound(Seq::empty()),
        mapping::valid_sizes::<S>(),
        elf.segments matches Some(segments) ==> laid_out::<S>(
            segments,
            kernel_phys_base,
            kernel.load_base,
        ),
        !(elf_loading::elf_run(
            before.vm(),
            before.memory,
            elf,
            kernel_phys_base,
            kernel.load_base,
            use_huge_pages,
        ) is Crossing),
    ensures
        elf.segments is Some,
        segments_mapped(
            before.vm(),
            before.memory,
            elf.segments.unwrap(),
            kernel_phys_base,
            kernel.load_base,
            mapped,
        ),
        segments_finished(
            mapped,
            elf,
            elf.segments.unwrap(),
            kernel.load_base,
            after.vm(),
        ),
{
    let load_base = kernel.load_base;
    let segments = elf.segments.unwrap();
    properties::lemma_page_wise(before.entries, before.memory);
    lemma_table_is_uniform(before.entries, before.memory);
    lemma_load_never_crosses(
        before.vm(),
        before.memory,
        segments,
        0,
        kernel_phys_base,
        load_base,
        use_huge_pages,
    );
    let run = elf_loading::load_run(
        before.vm(),
        before.memory,
        segments,
        0,
        kernel_phys_base,
        load_base,
        use_huge_pages,
    );
    assert(run is Done);
    let mapped = run->Done_0.vm;
    assert(elf_loading::elf_in_range::<S>(elf, kernel_phys_base, load_base));
    lemma_segments_mapped(
        before.vm(),
        before.memory,
        segments,
        kernel_phys_base,
        load_base,
        use_huge_pages,
        mapped,
    );
    lemma_segments_finished(mapped, elf, segments, load_base, after.vm());
    mapped
}

/// The file has one dynamic segment, with the given number.
pub open spec fn one_dynamic(segments: Seq<ProgramHeader>, only: int) -> bool {
    &&& 0 <= only < segments.len()
    &&& segments[only].p_type == PT_DYNAMIC
    &&& forall|i: int|
        0 <= i < segments.len() && i != only ==> (#[trigger] segments[i]).p_type != PT_DYNAMIC
}

/// These are the relocation tables of a file in the memory `mapped`, and they do not relocate
/// themselves.
pub open spec fn tables_of<S: PageSize>(
    elf: ElfView,
    only: int,
    load_base: i64,
    mapped: Map<int, Cell<S>>,
    tables: Tables,
) -> bool {
    &&& elf.dynamic matches DynamicView::Entries(entries)
    &&& relocation_laws::described(tables, entries, load_base, mapped)
    &&& relocation_laws::undisturbed(tables, load_base, mapped)
}

/// Words stay as they are while bytes do.
proof fn lemma_protection_keeps_words<S: PageSize>(
    tables: Tables,
    load_base: i64,
    vm: Map<int, Cell<S>>,
    relocated: Map<int, Cell<S>>,
    after: Map<int, Cell<S>>,
)
    requires
        relocation_laws::relocated(tables, load_base, vm, relocated),
        properties::same_bytes(relocated, after),
        properties::page_wise(relocated),
    ensures
        relocation_laws::relocated(tables, load_base, vm, after),
{
    assert forall|addr: u64| #[trigger] relocation::fetch(after, addr) == relocation::fetch(
        relocated,
        addr,
    ) by {
        let page = relocation::page_of::<S>(addr) as int;
        arith::lemma_floor_facts(addr as int, paging::base::<S>());
        assert(after.contains_key(page) == relocated.contains_key(page));
        if relocated.contains_key(page) && !relocation::crosses::<S>(addr) {
            let first = Seq::new(8, |i: int| relocated[addr + i].byte);
            let second = Seq::new(8, |i: int| after[addr + i].byte);
            assert forall|i: int| 0 <= i < 8 implies first[i] == #[trigger] second[i] by {
                assert(relocated.contains_key(page) == relocated.contains_key(addr + i));
            }
            assert(first =~= second);
        }
    }
}

/// What the LOAD segments take up in the file's own addresses: `lo` is the lowest start, `hi` the
/// highest end, and `align` the largest alignment, at least one.
pub open spec fn extent(segments: Seq<ProgramHeader>, lo: int, hi: int, align: int) -> bool {
    &&& forall|i: int|
        0 <= i < segments.len() && (#[trigger] segments[i]).p_type == PT_LOAD ==> {
            &&& lo <= segments[i].p_vaddr
            &&& segments[i].p_vaddr + segments[i].p_memsz <= hi
            &&& segments[i].p_align <= align
        }
    &&& exists|i: int|
        0 <= i < segments.len() && (#[trigger] segments[i]).p_type == PT_LOAD
            && segments[i].p_vaddr == lo
    &&& exists|i: int|
        0 <= i < segments.len() && (#[trigger] segments[i]).p_type == PT_LOAD
            && segments[i].p_vaddr + segments[i].p_memsz == hi
    &&& align == 1 || exists|i: int|
        0 <= i < segments.len() && (#[trigger] segments[i]).p_type == PT_LOAD
            && segments[i].p_align == align
    &&& align >= 1
}

/// The memory that is computed for a kernel is what its LOAD segments take up.
pub proof fn lemma_extent(segments: Seq<ProgramHeader>)
    ensures
        forall|i: int|
            0 <= i < segments.len() && (#[trigger] segments[i]).p_type == PT_LOAD ==> {
                &&& loader::lowest_start(segments) <= segments[i].p_vaddr
                &&& segments[i].p_vaddr + segments[i].p_memsz <= loader::highest_end(segments)
                &&& segments[i].p_align <= loader::largest_align(segments)
            },
        loader::largest_align(segments) >= 1,
        loader::lowest_start(segments) != u64::MAX ==> extent(
            segments,
            loader::lowest_start(segments) as int,
            loader::highest_end(segments),
            loader::largest_align(segments) as int,
        ),
        loader::highest_end(segments) > 0 ==> exists|i: int|
            0 <= i < segments.len() && (#[trigger] segments[i]).p_type == PT_LOAD
                && segments[i].p_vaddr + segments[i].p_memsz == loader::highest_end(segments),
        loader::highest_end(segments) >= 0,
        loader::largest_align(segments) > 1 ==> exists|i: int|
            0 <= i < segments.len() && (#[trigger] segments[i]).p_type == PT_LOAD
                && segments[i].p_align == loader::largest_align(segments),
        loader::lowest_start(segments) != u64::MAX ==> exists|i: int|
            0 <= i < segments.len() && (#[trigger] segments[i]).p_type == PT_LOAD
                && segments[i].p_vaddr == loader::lowest_start(segments),
    decreases segments.len(),
{
    if segments.len() > 0 {
        let rest = segments.drop_last();
        let n = rest.len() as int;
        lemma_extent(rest);
        assert forall|i: int|
            0 <= i < segments.len() && (#[trigger] segments[i]).p_type == PT_LOAD implies {
            &&& loader::lowest_start(segments) <= segments[i].p_vaddr
            &&& segments[i].p_vaddr + segments[i].p_memsz <= loader::highest_end(segments)
            &&& segments[i].p_align <= loader::largest_align(segments)
        } by {
            if i < n {
                assert(rest[i] == segments[i]);
            }
        }
        let last = segments[n];
        if loader::highest_end(segments) > 0 {
            if !(last.p_type == PT_LOAD && last.p_vaddr + last.p_memsz == loader::highest_end(
                segments,
            )) {
                let i = choose|i: int|
                    0 <= i < rest.len() && (#[trigger] rest[i]).p_type == PT_LOAD
                        && rest[i].p_vaddr + rest[i].p_memsz == loader::highest_end(rest);
                assert(segments[i] == rest[i]);
            }
        }
        if loader::largest_align(segments) > 1 {
            if !(last.p_type == PT_LOAD && last.p_align == loader::largest_align(segments)) {
                let i = choose|i: int|
                    0 <= i < rest.len() && (#[trigger] rest[i]).p_type == PT_LOAD
                        && rest[i].p_align == loader::largest_align(rest);
                assert(segments[i] == rest[i]);
            }
        }
        if loader::lowest_start(segments) != u64::MAX {
            if !(last.p_type == PT_LOAD && last.p_vaddr == loader::lowest_start(segments)) {
                let i = choose|i: int|
                    0 <= i < rest.len() && (#[trigger] rest[i]).p_type == PT_LOAD
                        && rest[i].p_vaddr == loader::lowest_start(rest);
                assert(segments[i] == rest[i]);
            }
            let k = choose|i: int|
                0 <= i < segments.len() && (#[trigger] segments[i]).p_type == PT_LOAD
                    && segments[i].p_vaddr == loader::lowest_start(segments);
            if loader::highest_end(segments) == 0 {
                assert(segments[k].p_vaddr + segments[k].p_memsz == 0);
            }
        }
    }
}

/// There is one extent.
proof fn lemma_one_extent(segments: Seq<ProgramHeader>, lo: int, hi: int, align: int)
    requires
        extent(segments, lo, hi, align),
        lo != u64::MAX,
    ensures
        loader::lowest_start(segments) == lo,
        loader::highest_end(segments) == hi,
        loader::largest_align(segments) == align,
{
    lemma_extent(segments);
    let i = choose|i: int|
        0 <= i < segments.len() && (#[trigger] segments[i]).p_type == PT_LOAD
            && segments[i].p_vaddr == lo;
    assert(loader::lowest_start(segments) <= segments[i].p_vaddr);
    if align > 1 {
        let k = choose|k: int|
            0 <= k < segments.len() && (#[trigger] segments[k]).p_type == PT_LOAD
                && segments[k].p_align == align;
        assert(segments[k].p_align <= loader::largest_align(segments));
    }
}

/// The addresses of a kernel keep their distances when it is moved, unless they wrap around.
proof fn lemma_moved_together(lo: u64, addr: u64, load_base: i64)
    requires
        lo <= addr,
        moved(lo, load_base) + (addr - lo) <= u64::MAX,
    ensures
        moved(addr, load_base) == moved(lo, load_base) + (addr - lo),
{
    let n = 0x1_0000_0000_0000_0000int;
    let turns = (lo + load_base) / n;
    vstd::arithmetic::div_mod::lemma_fundamental_div_mod(lo + load_base, n);
    vstd::arithmetic::div_mod::lemma_fundamental_div_mod_converse(
        addr + load_base,
        n,
        turns,
        moved(lo, load_base) + (addr - lo),
    );
}

/// Where a kernel comes to lie, and which addresses are used from then on. All addresses of its
/// LOAD segments are, and beside them none but those of the pages around. A kernel that is placed
/// automatically starts at the place that is found for it, with the alignment that it asks for:
/// none of its addresses was used before.
pub proof fn lemma_kernel_is_placed<S: PageSize>(
    elf: ElfView,
    before: Snapshot<S>,
    regions: Seq<(u64, u64)>,
    kernel_phys_base: PhysAddr,
    placement: KernelPlacement,
    use_huge_pages: bool,
    rng: Option<u64>,
    after: Snapshot<S>,
    regions_after: Seq<(u64, u64)>,
    kernel: LoadedKernel,
    lo: u64,
    hi: u64,
    align: u64,
)
    requires
        loader::kernel_loaded(
            elf,
            before,
            regions,
            kernel_phys_base,
            placement,
            use_huge_pages,
            rng,
            after,
            regions_after,
            Ok(kernel),
        ),
        loader::kernel_placeable::<S>(elf, regions, placement, rng),
        address_space::canonical(regions),
        paging::base::<S>() > 0,
        elf.segments matches Some(segments) ==> extent(
            segments,
            lo as int,
            hi as int,
            align as int,
        ),
        lo != u64::MAX,
    ensures
        address_space::canonical(regions_after),
        elf.segments matches Some(segments) && {
            &&& moved(lo, kernel.load_base) + (hi - lo) <= u64::MAX
            &&& forall|i: int|
                0 <= i < segments.len() && (#[trigger] segments[i]).p_type == PT_LOAD ==> moved(
                    segments[i].p_vaddr,
                    kernel.load_base,
                ) == moved(lo, kernel.load_base) + (segments[i].p_vaddr - lo)
            &&& forall|v: int|
                moved(lo, kernel.load_base) <= v < moved(lo, kernel.load_base) + (hi - lo)
                    ==> #[trigger] address_space::used(regions_after).contains(v)
            &&& forall|v: int| #[trigger]
                address_space::used(regions).contains(v) ==> address_space::used(
                    regions_after,
                ).contains(v)
            &&& forall|v: int| #[trigger]
                address_space::used(regions_after).contains(v) ==> address_space::used(
                    regions,
                ).contains(v) || moved(lo, kernel.load_base) - paging::base::<S>() < v < moved(
                    lo,
                    kernel.load_base,
                ) + (hi - lo) + paging::base::<S>()
            &&& elf.header.e_type == ET_DYN && placement is Auto ==> {
                let size = arith::ceil_to(hi - lo, paging::base::<S>()) as u64;
                &&& address_space::free_address(regions, size, align, rng) == Some(
                    moved(lo, kernel.load_base),
                )
                &&& moved(lo, kernel.load_base) % (align as int) == 0
                &&& forall|v: int|
                    moved(lo, kernel.load_base) <= v < moved(lo, kernel.load_base) + (hi - lo)
                        ==> !#[trigger] address_space::used(regions).contains(v)
            }
        },
{
    let b = paging::base::<S>();
    let load_base = kernel.load_base;
    let segments = elf.segments.unwrap();
    lemma_one_extent(segments, lo as int, hi as int, align as int);
    let size = (hi - lo) as u64;
    assert(loader::memory_requirements(elf) == Ok::<(u64, u64, u64), LoadError>((size, align, lo)))
        by {
        let i = choose|i: int|
            0 <= i < segments.len() && (#[trigger] segments[i]).p_type == PT_LOAD
                && segments[i].p_vaddr == lo;
        assert(segments[i].p_vaddr + segments[i].p_memsz <= hi);
    }
    let aligned = arith::ceil_to(size as int, b) as u64;
    arith::lemma_ceil_facts(size as int, b);
    let start = moved(lo, load_base);
    assert(start == arith::rebased(lo, load_base));
    let (base, chosen) = loader::kernel_base::<S>(elf, regions, placement, rng).unwrap();
    if elf.header.e_type == ET_DYN && placement is Auto {
        address_space::lemma_found_is_free(regions, aligned, align, rng);
        let addr = address_space::free_address(regions, aligned, align, rng).unwrap();
        address_space::lemma_marked(regions, addr as u64, aligned);
        properties::lemma_signed_move(addr as u64, lo, load_base);
    }
    let from = loader::kernel_start::<S>(lo, load_base);
    let to = loader::kernel_end::<S>(lo, size, load_base);
    arith::lemma_floor_facts(start, b);
    arith::lemma_ceil_facts(start + size, b);
    address_space::lemma_marked(chosen, from as u64, (to - from) as u64);
    assert forall|i: int|
        0 <= i < segments.len() && (#[trigger] segments[i]).p_type == PT_LOAD implies moved(
        segments[i].p_vaddr,
        load_base,
    ) == start + (segments[i].p_vaddr - lo) by {
        lemma_moved_together(lo, segments[i].p_vaddr, load_base);
    }
}

/// Why a kernel cannot be placed. In each of these cases nothing changes.
pub proof fn lemma_kernel_is_not_placed<S: PageSize>(
    elf: ElfView,
    before: Snapshot<S>,
    regions: Seq<(u64, u64)>,
    kernel_phys_base: PhysAddr,
    placement: KernelPlacement,
    use_huge_pages: bool,
    rng: Option<u64>,
    after: Snapshot<S>,
    regions_after: Seq<(u64, u64)>,
    r: Result<LoadedKernel, LoadError>,
)
    requires
        loader::kernel_loaded(
            elf,
            before,
            regions,
            kernel_phys_base,
            placement,
            use_huge_pages,
            rng,
            after,
            regions_after,
            r,
        ),
    ensures
        elf.header.e_type != ET_EXEC && elf.header.e_type != ET_DYN ==> {
            &&& r == Err::<LoadedKernel, LoadError>(
                LoadError::UnsupportedElfType(elf.header.e_type),
            )
            &&& after == before
            &&& regions_after == regions
        },
        elf.header.e_type == ET_EXEC && placement is Fixed ==> {
            &&& r == Err::<LoadedKernel, LoadError>(LoadError::InvalidPlacement)
            &&& after == before
            &&& regions_after == regions
        },
        elf.header.e_type == ET_DYN && elf.segments is None ==> {
            &&& r == Err::<LoadedKernel, LoadError>(LoadError::InvalidElf("no program headers"))
            &&& after == before
            &&& regions_after == regions
        },
        elf.header.e_type == ET_DYN && (elf.segments matches Some(segments) && forall|i: int|
            0 <= i < segments.len() ==> (#[trigger] segments[i]).p_type != PT_LOAD) ==> {
            &&& r == Err::<LoadedKernel, LoadError>(LoadError::InvalidElf("no LOAD segments"))
            &&& after == before
            &&& regions_after == regions
        },
        forall|lo: u64, hi: u64, align: u64|
            elf.header.e_type == ET_DYN && placement is Auto && elf.segments is Some && lo
                != u64::MAX && #[trigger] extent(
                elf.segments.unwrap(),
                lo as int,
                hi as int,
                align as int,
            ) && address_space::free_address(
                regions,
                arith::ceil_to(hi - lo, paging::base::<S>()) as u64,
                align,
                rng,
            ) is None ==> {
                &&& r == Err::<LoadedKernel, LoadError>(LoadError::AddressSpaceFull)
                &&& after == before
                &&& regions_after == regions
            },
{
    if let Some(segments) = elf.segments {
        lemma_extent(segments);
        assert forall|lo: u64, hi: u64, align: u64|
            elf.header.e_type == ET_DYN && placement is Auto && lo != u64::MAX
                && #[trigger] extent(segments, lo as int, hi as int, align as int)
                && address_space::free_address(
                regions,
                arith::ceil_to(hi - lo, paging::base::<S>()) as u64,
                align,
                rng,
            ) is None implies {
            &&& r == Err::<LoadedKernel, LoadError>(LoadError::AddressSpaceFull)
            &&& after == before
            &&& regions_after == regions
        } by {
            lemma_one_extent(segments, lo as int, hi as int, align as int);
            let i = choose|i: int|
                0 <= i < segments.len() && (#[trigger] segments[i]).p_type == PT_LOAD
                    && segments[i].p_vaddr == lo;
            assert(segments[i].p_vaddr + segments[i].p_memsz <= hi);
            assert(loader::memory_requirements(elf) == Ok::<(u64, u64, u64), LoadError>(
                ((hi - lo) as u64, align, lo),
            ));
        }
    }
}

/// A LOAD segment can be mapped if its bytes start in the file, or at a page boundary.
proof fn lemma_segment_loads<S: PageSize>(
    vm: Map<int, Cell<S>>,
    image: Map<int, u8>,
    phdr: ProgramHeader,
    kernel_phys_base: PhysAddr,
    load_base: i64,
    use_huge_pages: bool,
)
    requires
        mapping::valid_sizes::<S>(),
        properties::page_wise(vm),
        elf_loading::load_in_range::<S>(phdr, kernel_phys_base, load_base),
        phdr.p_filesz > 0 || moved(phdr.p_vaddr, load_base) % paging::base::<S>() == 0,
    ensures
        elf_loading::load_segment_run(
            vm,
            image,
            phdr,
            kernel_phys_base,
            load_base,
            use_huge_pages,
        ) is Done,
{
    let b = paging::base::<S>();
    let virt = elf_loading::segment_virt(phdr, load_base);
    assert(virt == moved(phdr.p_vaddr, load_base));
    if phdr.p_filesz > 0 {
        properties::lemma_file_part(
            vm,
            image,
            phdr,
            kernel_phys_base,
            load_base,
            use_huge_pages,
        );
        let start = virt + phdr.p_filesz;
        let page = arith::floor_to(start, b);
        arith::lemma_floor_facts(start, b);
        arith::lemma_floor_facts(virt as int, b);
        arith::lemma_ceil_facts(start, b);
        let plan = paging::virtual_memory(
            elf_loading::file_plan::<S>(phdr, kernel_phys_base, load_base, use_huge_pages),
            image,
        );
        if start % b != 0 {
            let lo = properties::span_start::<S>(phdr, load_base);
            if page < lo {
                arith::lemma_multiples_apart(page, lo, b);
            }
            assert(plan.contains_key(page));
        }
    }
}

/// The headers of a file are in order: at most one of them is for thread-local storage, and each
/// LOAD segment has bytes in the file or starts at a page boundary.
pub open spec fn headers_in_order<S: PageSize>(
    segments: Seq<ProgramHeader>,
    load_base: i64,
) -> bool {
    &&& forall|i: int, j: int|
        0 <= i < j < segments.len() && (#[trigger] segments[i]).p_type == PT_TLS ==> (
        #[trigger] segments[j]).p_type != PT_TLS
    &&& forall|i: int|
        0 <= i < segments.len() && (#[trigger] segments[i]).p_type == PT_LOAD
            ==> segments[i].p_filesz > 0 || moved(segments[i].p_vaddr, load_base) % paging::base::<
            S,
        >() == 0
}

/// The LOAD segments of a file whose headers are in order can be mapped.
proof fn lemma_segments_load<S: PageSize>(
    vm: Map<int, Cell<S>>,
    image: Map<int, u8>,
    segments: Seq<ProgramHeader>,
    next: int,
    kernel_phys_base: PhysAddr,
    load_base: i64,
    use_huge_pages: bool,
)
    requires
        mapping::valid_sizes::<S>(),
        properties::page_wise(vm),
        0 <= next,
        headers_in_order::<S>(segments, load_base),
        laid_out::<S>(segments, kernel_phys_base, load_base),
        forall|i: int|
            0 <= i < segments.len() ==> elf_loading::segment_in_range::<S>(
                #[trigger] segments[i],
                kernel_phys_base,
                load_base,
            ),
    ensures
        elf_loading::load_run(
            vm,
            image,
            segments,
            next,
            kernel_phys_base,
            load_base,
            use_huge_pages,
        ) is Done,
    decreases segments.len() - next,
{
    if next < segments.len() {
        let phdr = segments[next];
        assert(elf_loading::segment_in_range::<S>(segments[next], kernel_phys_base, load_base));
        let now = if phdr.p_type == PT_LOAD {
            lemma_segment_loads(
                vm,
                image,
                phdr,
                kernel_phys_base,
                load_base,
                use_huge_pages,
            );
            properties::lemma_segment_is_shown(
                vm,
                image,
                phdr,
                kernel_phys_base,
                load_base,
                use_huge_pages,
            );
            match elf_loading::load_segment_run(
                vm,
                image,
                phdr,
                kernel_phys_base,
                load_base,
                use_huge_pages,
            ) {
                Run::Done(Virtual { vm: now, .. }) => now,
                _ => vm,
            }
        } else {
            properties::lemma_first_tls(segments, next, load_base);
            vm
        };
        lemma_segments_load(
            now,
            image,
            segments,
            next + 1,
            kernel_phys_base,
            load_base,
            use_huge_pages,
        );
    }
}

/// A file without a dynamic segment whose headers are in order is loaded, unless the platform
/// refuses a frame or a mapping.
pub proof fn lemma_static_file_loads<S: PageSize>(
    elf: ElfView,
    before: Snapshot<S>,
    regions: Seq<(u64, u64)>,
    kernel_phys_base: PhysAddr,
    placement: KernelPlacement,
    use_huge_pages: bool,
    rng: Option<u64>,
    after: Snapshot<S>,
    regions_after: Seq<(u64, u64)>,
    r: Result<LoadedKernel, LoadError>,
    load_base: i64,
)
    requires
        loader::kernel_loaded(
            elf,
            before,
            regions,
            kernel_phys_base,
            placement,
            use_huge_pages,
            rng,
            after,
            regions_after,
            r,
        ),
        loader::loadable::<S>(
            elf,
            regions,
            before.available,
            kernel_phys_base,
            placement,
            rng,
        ),
        before.sound(Seq::empty()),
        mapping::valid_sizes::<S>(),
        loader::kernel_plan::<S>(elf, regions, placement, rng) matches Ok((base, _)) && base
            == load_base,
        elf.segments is Some,
        headers_in_order::<S>(elf.segments.unwrap(), load_base),
        no_dynamic(elf.segments.unwrap()),
        laid_out::<S>(elf.segments.unwrap(), kernel_phys_base, load_base),
    ensures
        r matches Err(e) ==> before.refused_by(after, e),
{
    let segments = elf.segments.unwrap();
    properties::lemma_page_wise(before.entries, before.memory);
    lemma_segments_load(
        before.vm(),
        before.memory,
        segments,
        0,
        kernel_phys_base,
        load_base,
        use_huge_pages,
    );
    let mapped = elf_loading::load_run(
        before.vm(),
        before.memory,
        segments,
        0,
        kernel_phys_base,
        load_base,
        use_huge_pages,
    )->Done_0.vm;
    lemma_relocated_once(
        Virtual { vm: mapped, copied: Seq::empty() },
        segments,
        0,
        elf.dynamic,
        load_base,
        elf.header.e_machine,
        -1,
    );
}

/// Where a kernel can be placed: one with fixed addresses if no other place is asked for, and any
/// other that has LOAD segments at a fixed base, or at a free place if there is one.
pub proof fn lemma_kernel_has_a_place<S: PageSize>(
    elf: ElfView,
    regions: Seq<(u64, u64)>,
    placement: KernelPlacement,
    rng: Option<u64>,
)
    ensures
        elf.header.e_type == ET_EXEC && placement is Auto ==> loader::kernel_plan::<S>(
            elf,
            regions,
            placement,
            rng,
        ) is Ok,
        forall|lo: u64, hi: u64, align: u64|
            elf.header.e_type == ET_DYN && elf.segments is Some && lo != u64::MAX
                && #[trigger] extent(
                elf.segments.unwrap(),
                lo as int,
                hi as int,
                align as int,
            ) && (placement is Fixed || address_space::free_address(
                regions,
                arith::ceil_to(hi - lo, paging::base::<S>()) as u64,
                align,
                rng,
            ) is Some) ==> loader::kernel_plan::<S>(elf, regions, placement, rng) is Ok,
{
    if let Some(segments) = elf.segments {
        assert forall|lo: u64, hi: u64, align: u64|
            elf.header.e_type == ET_DYN && lo != u64::MAX && #[trigger] extent(
                segments,
                lo as int,
                hi as int,
                align as int,
            ) && (placement is Fixed || address_space::free_address(
                regions,
                arith::ceil_to(hi - lo, paging::base::<S>()) as u64,
                align,
                rng,
            ) is Some) implies loader::kernel_plan::<S>(elf, regions, placement, rng) is Ok by {
            lemma_one_extent(segments, lo as int, hi as int, align as int);
            let i = choose|i: int|
                0 <= i < segments.len() && (#[trigger] segments[i]).p_type == PT_LOAD
                    && segments[i].p_vaddr == lo;
            assert(segments[i].p_vaddr + segments[i].p_memsz <= hi);
            assert(loader::memory_requirements(elf) == Ok::<(u64, u64, u64), LoadError>(
                ((hi - lo) as u64, align, lo),
            ));
        }
    }
}

/// These tables of a file can be applied, and name words in no more than `pages`.
pub open spec fn can_apply<S: PageSize>(
    entries: Seq<DynamicEntry>,
    load_base: i64,
    e_machine: u16,
    mapped: Map<int, Cell<S>>,
    tables: Tables,
    pages: Seq<u64>,
) -> bool {
    &&& relocation_laws::described(tables, entries, load_base, mapped)
    &&& relocation_laws::undisturbed(tables, load_base, mapped)
    &&& relocation_laws::tables_valid(tables, entries, load_base, e_machine, mapped)
    &&& pages.len() <= 1024
    &&& forall|addr: u64| #[trigger]
        relocation_laws::named_words(tables, load_base, mapped)(addr) ==> pages.contains(
            arith::floor_to(addr as int, paging::base::<S>()) as u64,
        )
}

/// The file can be relocated once its segments are mapped.
pub open spec fn can_relocate<S: PageSize>(
    entries: Seq<DynamicEntry>,
    load_base: i64,
    e_machine: u16,
    mapped: Map<int, Cell<S>>,
) -> bool {
    exists|tables: Tables, pages: Seq<u64>| #[trigger]
        can_apply(entries, load_base, e_machine, mapped, tables, pages)
}

/// A file with a dynamic segment whose headers are in order, and whose relocation tables can be
/// applied wherever its segments are mapped, is loaded, unless the platform refuses a frame or a
/// mapping. In particular no word of it crosses a page boundary.
pub proof fn lemma_dynamic_file_loads<S: PageSize>(
    elf: ElfView,
    before: Snapshot<S>,
    regions: Seq<(u64, u64)>,
    kernel_phys_base: PhysAddr,
    placement: KernelPlacement,
    use_huge_pages: bool,
    rng: Option<u64>,
    after: Snapshot<S>,
    regions_after: Seq<(u64, u64)>,
    r: Result<LoadedKernel, LoadError>,
    load_base: i64,
    only: int,
    entries: Seq<DynamicEntry>,
)
    requires
        loader::kernel_loaded(
            elf,
            before,
            regions,
            kernel_phys_base,
            placement,
            use_huge_pages,
            rng,
            after,
            regions_after,
            r,
        ),
        loader::loadable::<S>(
            elf,
            regions,
            before.available,
            kernel_phys_base,
            placement,
            rng,
        ),
        before.sound(Seq::empty()),
        mapping::valid_sizes::<S>(),
        loader::kernel_plan::<S>(elf, regions, placement, rng) matches Ok((base, _)) && base
            == load_base,
        elf.segments is Some,
        headers_in_order::<S>(elf.segments.unwrap(), load_base),
        one_dynamic(elf.segments.unwrap(), only),
        elf.dynamic == DynamicView::Entries(entries),
        laid_out::<S>(elf.segments.unwrap(), kernel_phys_base, load_base),
        forall|mapped: Map<int, Cell<S>>| #[trigger]
            segments_mapped(
                before.vm(),
                before.memory,
                elf.segments.unwrap(),
                kernel_phys_base,
                load_base,
                mapped,
            ) && properties::page_wise(mapped) ==> can_relocate(
                entries,
                load_base,
                elf.header.e_machine,
                mapped,
            ),
    ensures
        !(elf_loading::elf_run(
            before.vm(),
            before.memory,
            elf,
            kernel_phys_base,
            load_base,
            use_huge_pages,
        ) is Crossing),
        r matches Err(e) ==> before.refused_by(after, e),
{
    let segments = elf.segments.unwrap();
    properties::lemma_page_wise(before.entries, before.memory);
    lemma_table_is_uniform(before.entries, before.memory);
    lemma_segments_load(
        before.vm(),
        before.memory,
        segments,
        0,
        kernel_phys_base,
        load_base,
        use_huge_pages,
    );
    let mapped = elf_loading::load_run(
        before.vm(),
        before.memory,
        segments,
        0,
        kernel_phys_base,
        load_base,
        use_huge_pages,
    )->Done_0.vm;
    assert(elf_loading::elf_in_range::<S>(elf, kernel_phys_base, load_base));
    lemma_segments_mapped(
        before.vm(),
        before.memory,
        segments,
        kernel_phys_base,
        load_base,
        use_huge_pages,
        mapped,
    );
    assert(can_relocate(entries, load_base, elf.header.e_machine, mapped));
    let (tables, pages) = choose|tables: Tables, pages: Seq<u64>| #[trigger]
        can_apply(entries, load_base, elf.header.e_machine, mapped, tables, pages);
    assert forall|addr: u64| #[trigger]
        relocation_laws::named_words(tables, load_base, mapped)(addr) implies pages.contains(
        relocation::page_of::<S>(addr),
    ) by {}
    relocation_laws::lemma_valid_tables_are_applied(
        mapped,
        Seq::empty(),
        entries,
        load_base,
        elf.header.e_machine,
        tables,
        pages,
    );
    lemma_relocated_once(
        Virtual { vm: mapped, copied: Seq::empty() },
        segments,
        0,
        elf.dynamic,
        load_base,
        elf.header.e_machine,
        only,
    );
}

/// The bytes of a LOAD segment lie in the first `len` bytes of the file, and its sizes are those
/// of a segment that grows in memory.
pub open spec fn inside_file(phdr: ProgramHeader, len: int) -> bool {
    &&& phdr.p_offset + phdr.p_filesz <= len
    &&& phdr.p_filesz <= phdr.p_memsz
}

/// A LOAD segment inside the file is in range.
proof fn lemma_inside_file<S: PageSize>(
    phdr: ProgramHeader,
    kernel_phys_base: PhysAddr,
    load_base: i64,
    len: int,
)
    requires
        mapping::valid_sizes::<S>(),
        kernel_phys_base.0 as int % paging::base::<S>() == 0,
        kernel_phys_base.0 + len + paging::base::<S>() <= u64::MAX,
        phdr.p_type == PT_LOAD,
        inside_file(phdr, len),
        moved(phdr.p_vaddr, load_base) % paging::base::<S>() == (kernel_phys_base.0 + phdr.p_offset)
            % paging::base::<S>(),
        moved(phdr.p_vaddr, load_base) + phdr.p_memsz + paging::base::<S>() <= u64::MAX,
    ensures
        elf_loading::load_in_range::<S>(phdr, kernel_phys_base, load_base),
        loader::segment_within::<S>(phdr, kernel_phys_base, load_base, len),
{
    let b = paging::base::<S>();
    let virt = elf_loading::segment_virt(phdr, load_base) as int;
    assert(virt == moved(phdr.p_vaddr, load_base));
    if phdr.p_filesz > 0 {
        let at = kernel_phys_base.0 + phdr.p_offset;
        let first = arith::floor_to(virt, b);
        let last = arith::floor_to(virt + phdr.p_filesz - 1, b);
        let start = arith::floor_to(at, b);
        arith::lemma_floor_facts(virt, b);
        arith::lemma_floor_facts(virt + phdr.p_filesz - 1, b);
        arith::lemma_floor_facts(at, b);
        arith::lemma_ceil_facts(kernel_phys_base.0 + len, b);
        let ceil = arith::ceil_to(kernel_phys_base.0 + len, b);
        if start < kernel_phys_base.0 {
            arith::lemma_multiples_apart(start, kernel_phys_base.0 as int, b);
        }
        assert(at - start == virt - first) by {
            assert(start == at - at % b);
            assert(first == virt - virt % b);
        }
        vstd::arithmetic::div_mod::lemma_mod_self_0(b);
        arith::lemma_multiples_add(last, first, b);
        arith::lemma_multiples_add(start, last - first, b);
        let end = start + (last - first) + b;
        arith::lemma_multiples_add(start + (last - first), b, b);
        assert(end - b <= at + phdr.p_filesz - 1);
        if ceil < end {
            arith::lemma_multiples_apart(ceil, end, b);
        }
    }
}

/// A file is not refused for its addresses as long as its segments lie in the file, each at the
/// same distance from a page boundary in the file and in memory, and neither the file nor the
/// kernel reaches the last page of the address space.
pub proof fn lemma_ordinary_file_is_loadable<S: PageSize>(
    elf: ElfView,
    regions: Seq<(u64, u64)>,
    kernel_phys_base: PhysAddr,
    placement: KernelPlacement,
    rng: Option<u64>,
    len: int,
    load_base: i64,
    lo: u64,
    hi: u64,
    align: u64,
)
    requires
        mapping::valid_sizes::<S>(),
        address_space::canonical(regions),
        regions.len() + 2 <= 128,
        kernel_phys_base.0 as int % paging::base::<S>() == 0,
        kernel_phys_base.0 + len + paging::base::<S>() <= u64::MAX,
        elf.segments is Some,
        extent(elf.segments.unwrap(), lo as int, hi as int, align as int),
        lo < hi,
        elf.header.e_type == ET_DYN ==> hi - lo + paging::base::<S>() <= u64::MAX
            && vstd::arithmetic::power2::is_pow2(align as int),
        loader::kernel_base::<S>(elf, regions, placement, rng) matches Ok((base, _)) && base
            == load_base,
        moved(lo, load_base) + (hi - lo) + paging::base::<S>() <= u64::MAX,
        forall|i: int|
            0 <= i < elf.segments.unwrap().len() && (
            #[trigger] elf.segments.unwrap()[i]).p_type == PT_LOAD ==> inside_file(
                elf.segments.unwrap()[i],
                len,
            ) && moved(elf.segments.unwrap()[i].p_vaddr, load_base) % paging::base::<S>() == (
            kernel_phys_base.0 + elf.segments.unwrap()[i].p_offset) % paging::base::<S>(),
        forall|i: int|
            0 <= i < elf.segments.unwrap().len() && (
            #[trigger] elf.segments.unwrap()[i]).p_type == PT_GNU_RELRO ==> moved(
                elf.segments.unwrap()[i].p_vaddr,
                load_base,
            ) + elf.segments.unwrap()[i].p_memsz + paging::base::<S>() <= u64::MAX,
    ensures
        loader::file_loadable::<S>(elf, regions, kernel_phys_base, placement, rng, len),
{
    let b = paging::base::<S>();
    let segments = elf.segments.unwrap();
    lemma_one_extent(segments, lo as int, hi as int, align as int);
    let size = (hi - lo) as u64;
    assert(loader::memory_requirements(elf) == Ok::<(u64, u64, u64), LoadError>((size, align, lo)));
    assert(loader::ends_in_range(elf)) by {
        assert forall|i: int|
            0 <= i < segments.len() && (#[trigger] segments[i]).p_type
                == PT_LOAD implies segments[i].p_vaddr + segments[i].p_memsz <= u64::MAX by {}
    }
    let start = moved(lo, load_base);
    assert(start == arith::rebased(lo, load_base));
    let (base, chosen) = loader::kernel_base::<S>(elf, regions, placement, rng).unwrap();
    let aligned = arith::ceil_to(size as int, b) as u64;
    if let Some(addr) = address_space::free_address(regions, aligned, align, rng) {
        address_space::lemma_marked(regions, addr as u64, aligned);
    }
    assert forall|i: int|
        0 <= i < segments.len() implies elf_loading::segment_in_range::<S>(
        #[trigger] segments[i],
        kernel_phys_base,
        load_base,
    ) && loader::segment_within::<S>(segments[i], kernel_phys_base, load_base, len) by {
        let phdr = segments[i];
        assert(elf.segments.unwrap()[i] == phdr);
        if phdr.p_type == PT_LOAD {
            lemma_moved_together(lo, phdr.p_vaddr, load_base);
            lemma_inside_file::<S>(phdr, kernel_phys_base, load_base, len);
        }
        if phdr.p_type == PT_GNU_RELRO {
            let virt = moved(phdr.p_vaddr, load_base);
            assert(virt == elf_loading::segment_virt(phdr, load_base));
            let end = virt + phdr.p_memsz;
            arith::lemma_floor_facts(
                if end > 0 {
                    end - 1
                } else {
                    0
                },
                b,
            );
        }
    }
}

/// How many of the segments from number `next` on are dynamic segments.
pub open spec fn dynamic_count(segments: Seq<ProgramHeader>, next: int) -> nat
    decreases segments.len() - next,
{
    if next < 0 || segments.len() <= next {
        0
    } else {
        dynamic_count(segments, next + 1) + if segments[next].p_type == PT_DYNAMIC {
            1nat
        } else {
            0
        }
    }
}

/// Processing the dynamic table of a file several times over, up to the first time that fails.
pub open spec fn processed<W: relocation::Words>(
    memory: W,
    dynamic: DynamicView,
    load_base: i64,
    e_machine: u16,
    times: nat,
) -> Run<W>
    decreases times,
{
    if times == 0 {
        Run::Done(memory)
    } else {
        match elf_loading::dynamic_run(memory, dynamic, load_base, e_machine) {
            Run::Done(next) => processed(next, dynamic, load_base, e_machine, (times - 1) as nat),
            stop => stop,
        }
    }
}

/// The dynamic table of a file is processed once for each of its dynamic segments.
pub proof fn lemma_processed_for_each<W: relocation::Words>(
    memory: W,
    segments: Seq<ProgramHeader>,
    next: int,
    dynamic: DynamicView,
    load_base: i64,
    e_machine: u16,
)
    requires
        0 <= next,
    ensures
        elf_loading::relocate_run(memory, segments, next, dynamic, load_base, e_machine)
            == processed(memory, dynamic, load_base, e_machine, dynamic_count(segments, next)),
    decreases segments.len() - next,
{
    if next < segments.len() {
        let then = if segments[next].p_type == PT_DYNAMIC {
            match elf_loading::dynamic_run(memory, dynamic, load_base, e_machine) {
                Run::Done(then) => then,
                _ => memory,
            }
        } else {
            memory
        };
        lemma_processed_for_each(then, segments, next + 1, dynamic, load_base, e_machine);
    }
}

/// The file part of a LOAD segment is mapped with pages that are as large as the caller and the
/// alignment permit, each of them to the frames of the file itself.
pub proof fn lemma_file_part_has_few_pages<S: PageSize>(
    phdr: ProgramHeader,
    kernel_phys_base: PhysAddr,
    load_base: i64,
    use_huge_pages: bool,
)
    requires
        mapping::valid_sizes::<S>(),
        region_laws::sizes_descend(S::huge_sizes()),
        phdr.p_filesz > 0,
        moved(phdr.p_vaddr, load_base) + phdr.p_filesz + paging::base::<S>() <= u64::MAX,
        kernel_phys_base.0 + phdr.p_offset + phdr.p_filesz + 2 * paging::base::<S>() <= u64::MAX,
    ensures
        ({
            let b = paging::base::<S>();
            let plan = elf_loading::file_plan::<S>(
                phdr,
                kernel_phys_base,
                load_base,
                use_huge_pages,
            );
            let first = arith::floor_to(moved(phdr.p_vaddr, load_base), b);
            let end = arith::ceil_to(moved(phdr.p_vaddr, load_base) + phdr.p_filesz, b);
            forall|k: u64| #[trigger]
                plan.contains_key(k) ==> region_laws::page_of_region(
                    k,
                    plan[k],
                    first,
                    arith::floor_to(kernel_phys_base.0 + phdr.p_offset, b),
                    end - first,
                    (crate::traits::PageFlags {
                        writable: phdr.p_flags & 2 != 0,
                        executable: phdr.p_flags & 1 != 0,
                    }),
                    use_huge_pages,
                )
        }),
{
    let b = paging::base::<S>();
    let virt = moved(phdr.p_vaddr, load_base);
    assert(virt == elf_loading::segment_virt(phdr, load_base));
    let first = arith::floor_to(virt, b);
    let last = arith::floor_to(virt + phdr.p_filesz - 1, b);
    let end = arith::ceil_to(virt + phdr.p_filesz, b);
    let start = arith::floor_to(kernel_phys_base.0 + phdr.p_offset, b);
    arith::lemma_floor_facts(virt, b);
    arith::lemma_floor_facts(virt + phdr.p_filesz - 1, b);
    arith::lemma_ceil_facts(virt + phdr.p_filesz, b);
    arith::lemma_floor_facts(kernel_phys_base.0 + phdr.p_offset, b);
    vstd::arithmetic::div_mod::lemma_mod_self_0(b);
    arith::lemma_multiples_add(last, b, b);
    if last + b != end {
        arith::lemma_multiples_apart(last + b, end, b);
    }
    region_laws::lemma_few_pages::<S>(
        first,
        start,
        end - first,
        elf_loading::segment_flags(phdr.p_flags),
        use_huge_pages,
    );
    let plan = elf_loading::file_plan::<S>(phdr, kernel_phys_base, load_base, use_huge_pages);
    assert forall|k: u64| #[trigger] plan.contains_key(k) implies region_laws::page_of_region(
        k,
        plan[k],
        first,
        start,
        end - first,
        elf_loading::segment_flags(phdr.p_flags),
        use_huge_pages,
    ) by {}
}

} // verus!
