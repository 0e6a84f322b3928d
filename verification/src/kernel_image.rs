//! What the virtual memory of a loaded kernel shows of its file.

use crate::arith;
use crate::elf_file::{
    DynamicEntry, DynamicView, ElfView, ProgramHeader, DT_RELA, DT_RELASZ, DT_RELR, DT_RELRSZ,
    PT_DYNAMIC, PT_GNU_RELRO, PT_LOAD,
};
use crate::elf_loading;
use crate::mapping;
use crate::paging;
use crate::paging::Cell;
use crate::physical::Run;
use crate::properties;
use crate::relocation;
use crate::relocation::Virtual;
use crate::traits::{PageSize, PhysAddr};
use vstd::prelude::*;

verus! {

/// The address lies in a page that was copied for writing.
pub open spec fn in_copied<S: PageSize>(copied: Seq<u64>, v: int) -> bool {
    exists|k: u64| #[trigger] copied.contains(k) && k <= v < k + paging::base::<S>()
}

/// Between the two memories only pages that were copied for writing have changed, and the same
/// addresses are mapped.
pub open spec fn only_copied_changed<S: PageSize>(before: Virtual<S>, after: Virtual<S>) -> bool {
    &&& forall|v: int| #[trigger] after.vm.contains_key(v) == before.vm.contains_key(v)
    &&& forall|k: u64| #[trigger] before.copied.contains(k) ==> after.copied.contains(k)
    &&& forall|v: int|
        before.vm.contains_key(v) ==> {
            &&& (#[trigger] after.vm[v]).size == before.vm[v].size
            &&& !in_copied::<S>(after.copied, v) ==> after.vm[v] == before.vm[v]
        }
}

/// Where two steps in a row change copied pages only, so do both together.
proof fn lemma_changes_add_up<S: PageSize>(
    first: Virtual<S>,
    second: Virtual<S>,
    third: Virtual<S>,
)
    requires
        only_copied_changed(first, second),
        only_copied_changed(second, third),
    ensures
        only_copied_changed(first, third),
{
    assert forall|v: int| #[trigger] third.vm.contains_key(v) == first.vm.contains_key(v) by {
        assert(second.vm.contains_key(v) == first.vm.contains_key(v));
    }
    assert forall|v: int| first.vm.contains_key(v) implies (#[trigger] third.vm[v]).size
        == first.vm[v].size && (!in_copied::<S>(third.copied, v) ==> third.vm[v]
        == first.vm[v]) by {
        assert(second.vm.contains_key(v) == first.vm.contains_key(v));
        assert(second.vm[v].size == first.vm[v].size);
        if in_copied::<S>(second.copied, v) {
            let k = choose|k: u64| #[trigger]
                second.copied.contains(k) && k <= v < k + paging::base::<S>();
            assert(third.copied.contains(k));
        }
    }
}

/// Writing a word changes the copied page that holds it only.
proof fn lemma_put<S: PageSize>(memory: Virtual<S>, addr: u64, value: u64)
    requires
        paging::base::<S>() > 0,
    ensures
        relocation::put(memory.vm, memory.copied, addr, value) matches Run::Done(after)
            ==> only_copied_changed(memory, after),
{
    let page = relocation::page_of::<S>(addr);
    arith::lemma_floor_facts(addr as int, paging::base::<S>());
    match relocation::put(memory.vm, memory.copied, addr, value) {
        Run::Done(after) => {
            assert forall|k: u64| #[trigger] memory.copied.contains(
                k,
            ) implies after.copied.contains(k) by {
                let i = choose|i: int| 0 <= i < memory.copied.len() && memory.copied[i] == k;
                assert(after.copied[i] == k);
            }
            assert(after.copied.contains(page)) by {
                if !memory.copied.contains(page) {
                    assert(after.copied[memory.copied.len() as int] == page);
                }
            }
            assert forall|v: int| memory.vm.contains_key(v) implies (#[trigger] after.vm[v]).size
                == memory.vm[v].size && (!in_copied::<S>(after.copied, v)
                ==> after.vm[v] == memory.vm[v]) by {
                if page <= v < page + paging::base::<S>() {
                    assert(in_copied::<S>(after.copied, v));
                }
            }
        },
        _ => {},
    }
}

/// Adding the load base to a word changes the copied page that holds it only.
proof fn lemma_adjust<S: PageSize>(memory: Virtual<S>, addr: u64, load_base: i64)
    requires
        paging::base::<S>() > 0,
    ensures
        relocation::adjust(memory, addr, load_base) matches Run::Done(after)
            ==> only_copied_changed(memory, after),
{
    match relocation::fetch(memory.vm, addr) {
        relocation::Fetch::Word(word) => {
            lemma_put(memory, addr, arith::rebased(word, load_base));
        },
        _ => {},
    }
}

/// Applying RELA entries changes copied pages only.
pub proof fn lemma_rela_run<S: PageSize>(
    memory: Virtual<S>,
    table: u64,
    i: int,
    n: int,
    load_base: i64,
    expected: u32,
)
    requires
        paging::base::<S>() > 0,
    ensures
        relocation::rela_run(memory, table, i, n, load_base, expected) matches Run::Done(after)
            ==> only_copied_changed(memory, after),
    decreases n - i,
{
    if i < n {
        let at = arith::wrapped_sum(table, i * 24);
        match relocation::rela_step(memory, at, load_base, expected) {
            Run::Done(next) => {
                match (
                    relocation::fetch(memory.vm, at),
                    relocation::fetch(memory.vm, arith::wrapped_sum(at, 16)),
                ) {
                    (relocation::Fetch::Word(offset), relocation::Fetch::Word(addend)) => {
                        lemma_put(
                            memory,
                            arith::rebased(offset, load_base),
                            arith::rebased(addend, load_base),
                        );
                    },
                    _ => {},
                }
                lemma_rela_run(next, table, i + 1, n, load_base, expected);
                match relocation::rela_run(next, table, i + 1, n, load_base, expected) {
                    Run::Done(after) => {
                        lemma_changes_add_up(memory, next, after);
                    },
                    _ => {},
                }
            },
            _ => {},
        }
    }
}

/// Applying a RELR bitmap changes copied pages only.
proof fn lemma_bitmap_run<S: PageSize>(
    memory: Virtual<S>,
    addr: u64,
    bitmap: u64,
    load_base: i64,
)
    requires
        paging::base::<S>() > 0,
    ensures
        relocation::bitmap_run(memory, addr, bitmap, load_base) matches Run::Done(after)
            ==> only_copied_changed(memory, after),
    decreases bitmap,
{
    let behind = arith::wrapped_sum(addr, 8);
    if bitmap != 0 {
        if bitmap % 2 == 0 {
            lemma_bitmap_run(memory, behind, bitmap / 2, load_base);
        } else {
            lemma_adjust(memory, addr, load_base);
            match relocation::adjust(memory, addr, load_base) {
                Run::Done(next) => {
                    lemma_bitmap_run(next, behind, bitmap / 2, load_base);
                    match relocation::bitmap_run(next, behind, bitmap / 2, load_base) {
                        Run::Done(after) => {
                            lemma_changes_add_up(memory, next, after);
                        },
                        _ => {},
                    }
                },
                _ => {},
            }
        }
    }
}

/// Applying RELR entries changes copied pages only.
proof fn lemma_relr_run<S: PageSize>(
    memory: Virtual<S>,
    base: u64,
    table: u64,
    i: int,
    n: int,
    load_base: i64,
)
    requires
        paging::base::<S>() > 0,
    ensures
        relocation::relr_run(memory, base, table, i, n, load_base) matches Run::Done(after)
            ==> only_copied_changed(memory, after),
    decreases n - i,
{
    if i < n {
        match relocation::fetch(memory.vm, arith::wrapped_sum(table, i * 8)) {
            relocation::Fetch::Word(entry) => {
                if entry % 2 == 0 {
                    lemma_adjust(memory, arith::rebased(entry, load_base), load_base);
                } else {
                    lemma_bitmap_run(memory, base, entry / 2, load_base);
                }
                let next_base = relocation::relr_next_base(entry, base, load_base);
                match relocation::relr_entry_run(memory, entry, base, load_base) {
                    Run::Done(next) => {
                        lemma_relr_run(next, next_base, table, i + 1, n, load_base);
                        match relocation::relr_run(next, next_base, table, i + 1, n, load_base) {
                            Run::Done(after) => {
                                lemma_changes_add_up(memory, next, after);
                            },
                            _ => {},
                        }
                    },
                    _ => {},
                }
            },
            _ => {},
        }
    }
}

/// Applying the relocations of a dynamic table changes copied pages only.
proof fn lemma_dynamic_run<S: PageSize>(
    memory: Virtual<S>,
    entries: Seq<DynamicEntry>,
    load_base: i64,
    e_machine: u16,
)
    requires
        paging::base::<S>() > 0,
    ensures
        elf_loading::dynamic_run(
            memory,
            DynamicView::Entries(entries),
            load_base,
            e_machine,
        ) matches Run::Done(after) ==> only_copied_changed(memory, after),
{
    match elf_loading::dynamic_rela_run(memory, entries, load_base, e_machine) {
        Run::Done(next) => {
            match (
                elf_loading::last_value(entries, DT_RELA),
                elf_loading::last_value(entries, DT_RELASZ),
                relocation::relative_type(e_machine),
            ) {
                (Some(offset), Some(size), Some(expected)) => {
                    lemma_rela_run(
                        memory,
                        arith::rebased(offset, load_base),
                        0,
                        size as int / 24,
                        load_base,
                        expected,
                    );
                },
                _ => {},
            }
            match (
                elf_loading::last_value(entries, DT_RELR),
                elf_loading::last_value(entries, DT_RELRSZ),
            ) {
                (Some(offset), Some(size)) => {
                    lemma_relr_run(
                        next,
                        0,
                        arith::rebased(offset, load_base),
                        0,
                        size as int / 8,
                        load_base,
                    );
                },
                _ => {},
            }
            match elf_loading::dynamic_relr_run(next, entries, load_base) {
                Run::Done(after) => {
                    assert(only_copied_changed(memory, next));
                    assert(only_copied_changed(next, after));
                    lemma_changes_add_up(memory, next, after);
                },
                _ => {},
            }
        },
        _ => {},
    }
}

/// Applying the relocations of a file changes nothing but the pages that are copied for it.
pub proof fn lemma_relocation_is_copy_on_write<S: PageSize>(
    memory: Virtual<S>,
    segments: Seq<ProgramHeader>,
    next: int,
    dynamic: DynamicView,
    load_base: i64,
    e_machine: u16,
)
    requires
        paging::base::<S>() > 0,
    ensures
        elf_loading::relocate_run(
            memory,
            segments,
            next,
            dynamic,
            load_base,
            e_machine,
        ) matches Run::Done(after) ==> only_copied_changed(memory, after),
    decreases segments.len() - next,
{
    if 0 <= next < segments.len() {
        if segments[next].p_type == PT_DYNAMIC {
            match dynamic {
                DynamicView::Entries(entries) => {
                    lemma_dynamic_run(memory, entries, load_base, e_machine);
                },
                _ => {},
            }
            match elf_loading::dynamic_run(memory, dynamic, load_base, e_machine) {
                Run::Done(then) => {
                    lemma_relocation_is_copy_on_write(
                        then,
                        segments,
                        next + 1,
                        dynamic,
                        load_base,
                        e_machine,
                    );
                    match elf_loading::relocate_run(
                        then,
                        segments,
                        next + 1,
                        dynamic,
                        load_base,
                        e_machine,
                    ) {
                        Run::Done(after) => {
                            lemma_changes_add_up(memory, then, after);
                        },
                        _ => {},
                    }
                },
                _ => {},
            }
        } else {
            lemma_relocation_is_copy_on_write(
                memory,
                segments,
                next + 1,
                dynamic,
                load_base,
                e_machine,
            );
        }
    }
}

/// The memory of a loaded kernel shows a LOAD segment: all of its addresses are mapped, and
/// where no relocation has changed the page they read the bytes of the file, and zeros behind
/// them, with the segment's flags. Only the write permission may have been taken away.
pub open spec fn segment_visible<S: PageSize>(
    memory: Virtual<S>,
    image: Map<int, u8>,
    phdr: ProgramHeader,
    kernel_phys_base: PhysAddr,
    load_base: i64,
) -> bool {
    let virt = elf_loading::segment_virt(phdr, load_base);
    let flags = elf_loading::segment_flags(phdr.p_flags);
    &&& forall|v: int|
        virt <= v < virt + phdr.p_filesz ==> {
            &&& #[trigger] memory.vm.contains_key(v)
            &&& !in_copied::<S>(memory.copied, v) ==> {
                &&& memory.vm[v].byte == image[kernel_phys_base.0 + phdr.p_offset + (v - virt)]
                &&& memory.vm[v].flags.executable == flags.executable
                &&& memory.vm[v].flags.writable ==> flags.writable
            }
        }
    &&& forall|v: int|
        virt + phdr.p_filesz <= v < virt + phdr.p_memsz ==> {
            &&& #[trigger] memory.vm.contains_key(v)
            &&& !in_copied::<S>(memory.copied, v) ==> {
                &&& memory.vm[v].byte == 0
                &&& memory.vm[v].flags.executable == flags.executable
                &&& memory.vm[v].flags.writable ==> flags.writable
            }
        }
}

/// Once a kernel is loaded, memory shows each of its LOAD segments, except for what relocation
/// changes. The pages of RELRO segments cannot be written. Outside the segments, nothing is
/// mapped that was not mapped before, and no byte changes but by relocation.
pub proof fn lemma_kernel_is_shown<S: PageSize>(
    vm: Map<int, Cell<S>>,
    image: Map<int, u8>,
    elf: ElfView,
    kernel_phys_base: PhysAddr,
    load_base: i64,
    use_huge_pages: bool,
)
    requires
        mapping::valid_sizes::<S>(),
        properties::page_wise(vm),
        elf.segments matches Some(segments) ==> properties::segments_apart::<S>(
            segments,
            0,
            kernel_phys_base,
            load_base,
        ),
    ensures
        elf_loading::elf_run(
            vm,
            image,
            elf,
            kernel_phys_base,
            load_base,
            use_huge_pages,
        ) matches Run::Done(after) ==> {
            let segments = elf.segments.unwrap();
            &&& elf.segments is Some
            &&& forall|i: int|
                0 <= i < segments.len() && (#[trigger] segments[i]).p_type == PT_LOAD
                    ==> segment_visible(after, image, segments[i], kernel_phys_base, load_base)
            &&& forall|i: int, v: int|
                #![trigger segments[i], after.vm[v]]
                0 <= i < segments.len() && segments[i].p_type == PT_GNU_RELRO
                    && elf_loading::relro_start::<S>(segments[i], load_base) <= v
                    < elf_loading::relro_end::<S>(segments[i], load_base)
                    && after.vm.contains_key(v) ==> !after.vm[v].flags.writable
            &&& forall|v: int|
                properties::outside_segments::<S>(segments, 0, load_base, v)
                    ==> #[trigger] after.vm.contains_key(v) == vm.contains_key(v)
            &&& forall|v: int|
                properties::outside_segments::<S>(segments, 0, load_base, v) && vm.contains_key(v)
                    && !in_copied::<S>(after.copied, v) ==> #[trigger] after.vm[v].byte
                    == vm[v].byte
        },
{
    match elf.segments {
        Some(segments) => {
            properties::lemma_segments_are_shown(
                vm,
                image,
                segments,
                0,
                kernel_phys_base,
                load_base,
                use_huge_pages,
            );
            match elf_loading::load_run(
                vm,
                image,
                segments,
                0,
                kernel_phys_base,
                load_base,
                use_huge_pages,
            ) {
                Run::Done(Virtual { vm: loaded, .. }) => {
                    let mapped = Virtual { vm: loaded, copied: Seq::empty() };
                    lemma_relocation_is_copy_on_write(
                        mapped,
                        segments,
                        0,
                        elf.dynamic,
                        load_base,
                        elf.header.e_machine,
                    );
                    match elf_loading::relocate_run(
                        mapped,
                        segments,
                        0,
                        elf.dynamic,
                        load_base,
                        elf.header.e_machine,
                    ) {
                        Run::Done(relocated) => {
                            properties::lemma_relro_is_protected(
                                relocated.vm,
                                segments,
                                0,
                                load_base,
                            );
                            let after = elf_loading::relro_vm(
                                relocated.vm,
                                segments,
                                0,
                                load_base,
                            );
                            assert forall|v: int| #[trigger] after.contains_key(v)
                                == loaded.contains_key(v) by {
                                assert(relocated.vm.contains_key(v) == loaded.contains_key(v));
                            }
                            assert forall|v: int|
                                loaded.contains_key(v) && !in_copied::<S>(
                                    relocated.copied,
                                    v,
                                ) implies {
                                let cell = #[trigger] after[v];
                                &&& cell.byte == loaded[v].byte
                                &&& cell.flags.executable == loaded[v].flags.executable
                                &&& cell.flags.writable ==> loaded[v].flags.writable
                            } by {
                                assert(relocated.vm.contains_key(v) == loaded.contains_key(v));
                                assert(relocated.vm[v] == loaded[v]);
                                assert(after[v].byte == relocated.vm[v].byte);
                            }
                            assert forall|i: int|
                                0 <= i < segments.len() && (#[trigger] segments[i]).p_type
                                    == PT_LOAD implies segment_visible(
                                Virtual { vm: after, copied: relocated.copied },
                                image,
                                segments[i],
                                kernel_phys_base,
                                load_base,
                            ) by {
                                assert(properties::segment_shown(
                                    loaded,
                                    image,
                                    segments[i],
                                    kernel_phys_base,
                                    load_base,
                                ));
                            }
                        },
                        _ => {},
                    }
                },
                _ => {},
            }
        },
        None => {},
    }
}

} // verus!
