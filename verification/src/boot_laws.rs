//! What setting up the kernel's address space promises, in terms of the configuration, the system
//! and the page table that results.

use crate::address_space;
use crate::arith;
use crate::boot;
use crate::boot::{
    BootEnvironment, Progress, RegionMappings, SetUpRun, SystemInfo, PAGE_SIZE,
};
use crate::boot_config;
use crate::boot_config::{BootloaderConfig, Mapping};
use crate::boot_info;
use crate::elf_file;
use crate::error::LoadError;
use crate::loader;
use crate::loader::KernelPlacement;
use crate::mapping;
use crate::paging;
use crate::paging::PageEntry;
use crate::state::Snapshot;
use crate::traits::{PageFlags, PhysAddr, VirtAddr};
use crate::x86_64;
use crate::x86_bridge;
use crate::x86_bridge::X86PageSize;
use crate::LoadedKernel;
use vstd::prelude::*;

verus! {

/// The page table maps the virtual address `v` to the physical address `phys`.
pub open spec fn maps_to(
    entries: Map<u64, PageEntry<X86PageSize>>,
    v: int,
    phys: int,
    flags: PageFlags,
) -> bool {
    exists|k: u64| #[trigger]
        paging::covers(entries, k, v) && entries[k].phys + (v - k) == phys && entries[k].flags
            == flags
}

/// The `len` bytes of physical memory from `phys` on are seen at the virtual address `virt`, and
/// can be written, but not executed.
pub open spec fn data_at(
    entries: Map<u64, PageEntry<X86PageSize>>,
    virt: VirtAddr,
    phys: int,
    len: int,
) -> bool {
    forall|i: int|
        0 <= i < len ==> #[trigger] maps_to(
            entries,
            virt.0 + i,
            phys + i,
            (PageFlags { writable: true, executable: false }),
        )
}

/// All pages of the first page table are pages of the second.
pub open spec fn pages_kept(
    first: Map<u64, PageEntry<X86PageSize>>,
    second: Map<u64, PageEntry<X86PageSize>>,
) -> bool {
    forall|k: u64| #[trigger]
        first.contains_key(k) ==> second.contains_key(k) && second[k] == first[k]
}

/// What is seen stays so while no page changes.
proof fn lemma_data_kept(
    first: Map<u64, PageEntry<X86PageSize>>,
    second: Map<u64, PageEntry<X86PageSize>>,
    virt: VirtAddr,
    phys: int,
    len: int,
)
    requires
        pages_kept(first, second),
        data_at(first, virt, phys, len),
    ensures
        data_at(second, virt, phys, len),
{
    let flags = PageFlags { writable: true, executable: false };
    assert forall|i: int| 0 <= i < len implies #[trigger] maps_to(
        second,
        virt.0 + i,
        phys + i,
        flags,
    ) by {
        assert(maps_to(first, virt.0 + i, phys + i, flags));
        let k = choose|k: u64| #[trigger]
            paging::covers(first, k, virt.0 + i) && first[k].phys + (virt.0 + i - k) == phys + i
                && first[k].flags == flags;
        assert(paging::covers(second, k, virt.0 + i));
    }
}

/// A region is placed at a free address of the loader's choice: in whole pages, aligned to the
/// largest page that may be used, and picked by the random word if there is one.
pub open spec fn placed_freely(
    regions: Seq<(u64, u64)>,
    size: u64,
    use_huge_pages: bool,
    rng: Option<u64>,
    virt: VirtAddr,
) -> bool {
    let alignment: u64 = if use_huge_pages {
        0x20_0000
    } else {
        0x1000
    };
    &&& address_space::free_address(
        regions,
        arith::ceil_to(size as int, 0x1000) as u64,
        alignment,
        rng,
    ) == Some(virt.0 as int)
    &&& virt.0 as int % (alignment as int) == 0
    &&& virt.0 + size <= u64::MAX
    &&& forall|v: int|
        virt.0 <= v < virt.0 + size ==> !#[trigger] address_space::used(regions).contains(v)
}

/// Mapping a region shows it, and changes no other page.
proof fn lemma_data_step(
    before: Progress,
    phys_start: PhysAddr,
    size: u64,
    mapping: Mapping,
    use_huge_pages: bool,
    rng: Option<u64>,
    after: Progress,
    virt: VirtAddr,
)
    requires
        boot::data_in_range(phys_start.0, size, mapping),
        boot::data_step(
            before,
            phys_start,
            size,
            mapping,
            use_huge_pages,
            rng,
            after,
            Ok(virt),
        ),
        paging::wf_entries(before.state.entries),
        address_space::canonical(before.regions),
    ensures
        size > 0,
        data_at(after.state.entries, virt, phys_start.0 as int, size as int),
        pages_kept(before.state.entries, after.state.entries),
        paging::wf_entries(after.state.entries),
        address_space::canonical(after.regions),
        after.state.memory == before.state.memory,
        after.state.available.subset_of(before.state.available),
        mapping matches Mapping::FixedAddress(addr) ==> virt.0 == addr,
        forall|v: int|
            virt.0 <= v < virt.0 + size && v < u64::MAX ==> #[trigger] address_space::used(
                after.regions,
            ).contains(v),
        forall|v: int| #[trigger]
            address_space::used(before.regions).contains(v) ==> address_space::used(
                after.regions,
            ).contains(v),
        mapping is Dynamic ==> placed_freely(before.regions, size, use_huge_pages, rng, virt),
        forall|v: int|
            virt.0 <= v < virt.0 + size ==> !#[trigger] paging::mapped(before.state.entries, v),
{
    let page = PAGE_SIZE as int;
    x86_64::lemma_page_sizes();
    x86_bridge::lemma_base();
    assert(mapping::valid_sizes::<X86PageSize>());
    arith::lemma_ceil_facts(size as int, page);
    let aligned = loader::page_aligned::<X86PageSize>(size);
    let alignment = loader::region_alignment::<X86PageSize>(use_huge_pages);
    if mapping is Dynamic {
        address_space::lemma_found_is_free(before.regions, aligned, alignment, rng);
    }
    address_space::lemma_marked(before.regions, virt.0, aligned);
    let flags = PageFlags { writable: true, executable: false };
    let plan = mapping::page_plan::<X86PageSize>(
        virt.0 as int,
        phys_start.0 as int,
        size as int,
        flags,
        use_huge_pages,
    );
    arith::lemma_floor_facts(size - 1, page);
    let last = arith::floor_to(size - 1, page);
    arith::lemma_multiples_add(phys_start.0 as int, last, page);
    arith::lemma_aligned_block_fits((phys_start.0 + last) as u64, PAGE_SIZE);
    vstd::arithmetic::div_mod::lemma_mod_self_0(page);
    arith::lemma_multiples_add(last, page, page);
    if aligned != last + page {
        arith::lemma_multiples_apart(aligned as int, last + page, page);
    }
    arith::lemma_multiples_add(virt.0 as int, last, page);
    if mapping is FixedAddress {
        arith::lemma_aligned_block_fits((virt.0 + last) as u64, PAGE_SIZE);
    }
    mapping::lemma_plan::<X86PageSize>(
        virt.0 as int,
        phys_start.0 as int,
        size as int,
        flags,
        use_huge_pages,
    );
    assert(after.state.entries == before.state.entries.union_prefer_right(plan));
    assert forall|i: int| 0 <= i < size implies #[trigger] maps_to(
        after.state.entries,
        virt.0 + i,
        phys_start.0 + i,
        flags,
    ) by {
        let v = virt.0 + i;
        assert(paging::mapped(plan, v));
        let k = paging::page_at(plan, v);
        assert(paging::covers(plan, k, v));
        assert(paging::phys_at(plan, v) == phys_start.0 + (v - virt.0));
        assert(paging::covers(after.state.entries, k, v));
    }
    assert forall|k: u64| #[trigger]
        before.state.entries.contains_key(k) implies after.state.entries.contains_key(k)
        && after.state.entries[k] == before.state.entries[k] by {
        if plan.contains_key(k) {
            assert(paging::wf_entry(k, before.state.entries[k]));
            assert(paging::covers(before.state.entries, k, k as int));
            assert(paging::mapped(before.state.entries, k as int));
        }
    }
}

/// Mapping a region that there may be none of.
proof fn lemma_optional_step(
    before: Progress,
    region: Option<(PhysAddr, u64)>,
    mapping: Mapping,
    use_huge_pages: bool,
    rng: Option<u64>,
    after: Progress,
    r: Option<VirtAddr>,
)
    requires
        region matches Some((phys_start, size)) ==> boot::data_in_range(
            phys_start.0,
            size,
            mapping,
        ),
        boot::optional_step(before, region, mapping, use_huge_pages, rng, after, Ok(r)),
        paging::wf_entries(before.state.entries),
        address_space::canonical(before.regions),
    ensures
        pages_kept(before.state.entries, after.state.entries),
        paging::wf_entries(after.state.entries),
        address_space::canonical(after.regions),
        after.state.memory == before.state.memory,
        after.state.available.subset_of(before.state.available),
        r is Some <==> region is Some,
        forall|v: int| #[trigger]
            address_space::used(before.regions).contains(v) ==> address_space::used(
                after.regions,
            ).contains(v),
        region matches Some((phys_start, size)) ==> {
            &&& data_at(after.state.entries, r.unwrap(), phys_start.0 as int, size as int)
            &&& mapping matches Mapping::FixedAddress(addr) ==> r.unwrap().0 == addr
            &&& mapping is Dynamic ==> placed_freely(
                before.regions,
                size,
                use_huge_pages,
                rng,
                r.unwrap(),
            )
            &&& forall|v: int|
                r.unwrap().0 <= v < r.unwrap().0 + size && v < u64::MAX
                    ==> #[trigger] address_space::used(after.regions).contains(v)
            &&& forall|v: int|
                r.unwrap().0 <= v < r.unwrap().0 + size ==> !#[trigger] paging::mapped(
                    before.state.entries,
                    v,
                )
        },
{
    reveal(boot::optional_step);
    match region {
        Some((phys_start, size)) => {
            lemma_data_step(
                before,
                phys_start,
                size,
                mapping,
                use_huge_pages,
                rng,
                after,
                r.unwrap(),
            );
        },
        None => {},
    }
}

/// Loading the kernel leaves a valid page table and a canonical list of used addresses, from
/// which no address is missing that was used before.
proof fn lemma_kernel_step(
    before: Progress,
    bytes: Seq<u8>,
    kernel_start: PhysAddr,
    reserved: u64,
    mapping: Mapping,
    rng: Option<u64>,
    after: Progress,
    kernel: LoadedKernel,
)
    requires
        boot::kernel_step(
            before,
            bytes,
            kernel_start,
            reserved,
            mapping,
            rng,
            after,
            Some(Ok(kernel)),
        ),
        address_space::canonical(before.regions),
    ensures
        after.state.sound(Seq::empty()),
        address_space::canonical(after.regions),
        forall|v: int| #[trigger]
            address_space::used(before.regions).contains(v) ==> address_space::used(
                after.regions,
            ).contains(v),
        kernel_start.0 as int % 0x1000 == 0,
        elf_file::parsed(bytes) matches Some(elf) && {
            let placement = match mapping {
                Mapping::Dynamic => KernelPlacement::Auto,
                Mapping::FixedAddress(addr) => KernelPlacement::Fixed(VirtAddr(addr)),
            };
            &&& loader::kernel_loaded(
                elf,
                before.state,
                before.regions,
                kernel_start,
                placement,
                false,
                rng,
                after.state,
                after.regions,
                Ok(kernel),
            )
            &&& loader::file_loadable::<X86PageSize>(
                elf,
                before.regions,
                kernel_start,
                placement,
                rng,
                reserved as int,
            )
        },
{
    reveal(boot::kernel_step);
    x86_64::lemma_page_sizes();
    x86_bridge::lemma_base();
    let elf = elf_file::parsed(bytes).unwrap();
    let placement = boot_config::kernel_placement(mapping);
    match loader::kernel_base::<X86PageSize>(elf, before.regions, placement, rng) {
        Ok((load_base, chosen)) => {
            if let Ok((size, align, min_addr)) = loader::memory_requirements(elf) {
                let aligned = arith::ceil_to(size as int, paging::base::<X86PageSize>()) as u64;
                if let Some(addr) = address_space::free_address(
                    before.regions,
                    aligned,
                    align,
                    rng,
                ) {
                    address_space::lemma_marked(before.regions, addr as u64, aligned);
                }
                let start = loader::kernel_start::<X86PageSize>(min_addr, load_base as i64);
                let end = loader::kernel_end::<X86PageSize>(min_addr, size, load_base as i64);
                address_space::lemma_marked(chosen, start as u64, (end - start) as u64);
            }
        },
        Err(_) => {},
    }
}

/// The stack: zeroed memory that can be written and not executed, on frames of its own, with
/// nothing mapped over.
pub open spec fn stack_at(
    before: Snapshot<X86PageSize>,
    after: Snapshot<X86PageSize>,
    bottom: int,
    size: int,
) -> bool {
    forall|v: int|
        bottom <= v < bottom + size ==> {
            let phys = #[trigger] paging::phys_at(after.entries, v);
            &&& maps_to(
                after.entries,
                v,
                phys,
                (PageFlags { writable: true, executable: false }),
            )
            &&& after.memory[phys] == 0
            &&& before.available.contains(phys)
            &&& !after.available.contains(phys)
        }
}

/// Setting up the stack.
proof fn lemma_stack_step(
    before: Progress,
    mapping: Mapping,
    stack_size: u64,
    after: Progress,
    stack: (VirtAddr, VirtAddr),
)
    requires
        boot::stack_step(before, mapping, stack_size, after, Ok(stack)),
        before.state.sound(Seq::empty()),
        address_space::canonical(before.regions),
        stack_size + PAGE_SIZE <= u64::MAX,
        mapping matches Mapping::FixedAddress(addr) ==> addr + PAGE_SIZE + stack_size <= u64::MAX,
    ensures
        after.state.sound(Seq::empty()),
        address_space::canonical(after.regions),
        pages_kept(before.state.entries, after.state.entries),
        before.state.kept(Seq::empty(), after.state),
        stack_at(before.state, after.state, stack.0.0 as int, stack_size as int),
        forall|u: int, v: int|
            stack.0.0 <= u < v < stack.0.0 + stack_size ==> #[trigger] paging::phys_at(
                after.state.entries,
                u,
            ) != #[trigger] paging::phys_at(after.state.entries, v),
        stack.0.0 >= 0x1000,
        stack.1.0 as int % 16 == 0,
        stack.1.0 <= stack.0.0 + stack_size < stack.1.0 + 16,
        mapping matches Mapping::FixedAddress(addr) ==> stack.0.0 == addr + 0x1000,
        forall|v: int| #[trigger]
            address_space::used(before.regions).contains(v) ==> address_space::used(
                after.regions,
            ).contains(v),
        forall|v: int|
            stack.0.0 - 0x1000 <= v < stack.0.0 + stack_size ==> #[trigger] address_space::used(
                after.regions,
            ).contains(v),
        mapping is Dynamic ==> {
            &&& stack.0.0 as int % 0x1000 == 0
            &&& address_space::free_address(
                before.regions,
                (stack_size + 0x1000) as u64,
                0x1000,
                None,
            ) == Some(stack.0.0 - 0x1000)
            &&& forall|v: int|
                stack.0.0 - 0x1000 <= v < stack.0.0 + stack_size ==> !#[trigger] address_space::used(
                    before.regions,
                ).contains(v)
        },
        // Nothing is mapped but the stack.
        forall|v: int|
            !(stack.0.0 <= v < stack.0.0 + arith::ceil_to(stack_size as int, 0x1000))
                ==> #[trigger] paging::mapped(after.state.entries, v) == paging::mapped(
                before.state.entries,
                v,
            ),
{
    reveal(boot::stack_step);
    x86_64::lemma_page_sizes();
    x86_bridge::lemma_base();
    let size = (PAGE_SIZE + stack_size) as u64;
    let (guard, found) = boot::stack_place(before.regions, mapping, stack_size).unwrap();
    if mapping is Dynamic {
        address_space::lemma_found_is_free(before.regions, size, PAGE_SIZE, None);
        address_space::lemma_marked(before.regions, guard, size);
        vstd::arithmetic::div_mod::lemma_mod_self_0(0x1000);
        arith::lemma_multiples_add(guard as int, 0x1000, 0x1000);
    }
    address_space::lemma_marked(found, guard, PAGE_SIZE);
    let guarded = address_space::marked(found, guard, PAGE_SIZE);
    arith::lemma_ceil_facts(stack_size as int, 0x1000);
    let whole = loader::page_aligned::<X86PageSize>(stack_size);
    address_space::lemma_marked(guarded, stack.0.0, whole);
    arith::lemma_floor_facts(stack.0.0 + stack_size, 16);
    let end = stack.0.0 + arith::ceil_to(stack_size as int, 0x1000);
    let flags = PageFlags { writable: true, executable: false };
    assert forall|v: int|
        stack.0.0 <= v < stack.0.0 + stack_size implies {
        let phys = #[trigger] paging::phys_at(after.state.entries, v);
        &&& maps_to(after.state.entries, v, phys, flags)
        &&& after.state.memory[phys] == 0
        &&& before.state.available.contains(phys)
        &&& !after.state.available.contains(phys)
    } by {
        assert(paging::mapped(after.state.entries, v));
        let k = paging::page_at(after.state.entries, v);
        assert(paging::covers(after.state.entries, k, v));
        assert(after.state.entries[paging::page_at(after.state.entries, v)].flags == flags);
    }
}

/// Mapping the context switch function changes no other page.
proof fn lemma_context_step(
    before: Snapshot<X86PageSize>,
    context_switch: PhysAddr,
    after: Snapshot<X86PageSize>,
)
    requires
        boot::context_step(before, context_switch, after, Ok(())),
        paging::wf_entries(before.entries),
        arith::floor_to(context_switch.0 as int, PAGE_SIZE as int) + PAGE_SIZE <= u64::MAX,
    ensures
        pages_kept(before.entries, after.entries),
        paging::wf_entries(after.entries),
        after.memory == before.memory,
        after.available.subset_of(before.available),
        // The page of the function and the page behind it.
        forall|v: int|
            arith::floor_to(context_switch.0 as int, 0x1000) <= v < arith::floor_to(
                context_switch.0 as int,
                0x1000,
            ) + 0x2000 ==> #[trigger] maps_to(
                after.entries,
                v,
                v,
                (PageFlags { writable: false, executable: true }),
            ),
{
    reveal(boot::context_step);
    x86_64::lemma_page_sizes();
    x86_bridge::lemma_base();
    let page = PAGE_SIZE as int;
    arith::lemma_floor_facts(context_switch.0 as int, page);
    let first = PhysAddr(arith::floor_to(context_switch.0 as int, page) as u64);
    let second = PhysAddr((first.0 + PAGE_SIZE) as u64);
    vstd::arithmetic::div_mod::lemma_mod_self_0(page);
    arith::lemma_multiples_add(first.0 as int, page, page);
    arith::lemma_aligned_block_fits(first.0, PAGE_SIZE);
    arith::lemma_aligned_block_fits(second.0, PAGE_SIZE);
    let with_first = boot::identity_mapped(before.entries, first);
    assert(paging::wf_entry(first.0, boot::identity_entry(first)));
    assert(paging::wf_entry(second.0, boot::identity_entry(second)));
    paging::lemma_add_page(before.entries, first.0, boot::identity_entry(first));
    paging::lemma_add_page(with_first, second.0, boot::identity_entry(second));
    let flags = PageFlags { writable: false, executable: true };
    assert forall|v: int| first.0 <= v < first.0 + 0x2000 implies #[trigger] maps_to(
        after.entries,
        v,
        v,
        flags,
    ) by {
        if v < second.0 {
            assert(paging::covers(after.entries, first.0, v));
        } else {
            assert(paging::covers(after.entries, second.0, v));
        }
    }
}

/// What holds of all states on the way through setting up.
proof fn lemma_set_up_steps(
    config: BootloaderConfig,
    bytes: Seq<u8>,
    info: SystemInfo,
    env: BootEnvironment,
    before: Snapshot<X86PageSize>,
    run: SetUpRun,
    after: Snapshot<X86PageSize>,
    mappings: RegionMappings,
)
    requires
        boot::set_up(config, bytes, info, env, before, run, after, Ok(mappings)),
        boot::set_up_in_range(config, info, env),
    ensures
        address_space::canonical(boot::set_up_start(config, info, env, before).regions),
        run.loaded.state.sound(Seq::empty()),
        run.stacked.state.sound(Seq::empty()),
        paging::wf_entries(run.framed.state.entries),
        paging::wf_entries(run.with_ramdisk.state.entries),
        paging::wf_entries(run.with_memory.state.entries),
        paging::wf_entries(after.entries),
        address_space::canonical(run.loaded.regions),
        address_space::canonical(run.stacked.regions),
        address_space::canonical(run.framed.regions),
        address_space::canonical(run.with_ramdisk.regions),
        address_space::canonical(run.with_memory.regions),
        pages_kept(run.loaded.state.entries, run.stacked.state.entries),
        pages_kept(run.stacked.state.entries, run.framed.state.entries),
        pages_kept(run.framed.state.entries, run.with_ramdisk.state.entries),
        pages_kept(run.with_ramdisk.state.entries, run.with_memory.state.entries),
        pages_kept(run.with_memory.state.entries, after.entries),
        after.memory == run.stacked.state.memory,
{
    let words = boot::words_for(config, env);
    let start = boot::set_up_start(config, info, env, before);
    address_space::lemma_all_marked(
        Seq::empty(),
        boot::reservations(config, info.framebuffer, env.max_phys, env.boot_info_size),
    );
    lemma_kernel_step(
        start,
        bytes,
        env.kernel_start,
        env.kernel_reserved,
        config.mappings.kernel_base,
        boot::kernel_word(words),
        run.loaded,
        run.kernel,
    );
    lemma_stack_step(
        run.loaded,
        config.mappings.kernel_stack,
        config.kernel_stack_size,
        run.stacked,
        run.stack,
    );
    lemma_optional_step(
        run.stacked,
        boot::framebuffer_region(info),
        config.mappings.framebuffer,
        false,
        boot::framebuffer_word(words),
        run.framed,
        run.framebuffer,
    );
    lemma_optional_step(
        run.framed,
        boot::ramdisk_region(info),
        config.mappings.ramdisk_memory,
        false,
        boot::ramdisk_word(words),
        run.with_ramdisk,
        run.ramdisk,
    );
    lemma_optional_step(
        run.with_ramdisk,
        boot::memory_region(config, env),
        boot::memory_mapping(config),
        true,
        boot::memory_word(words),
        run.with_memory,
        run.physical_memory,
    );
    lemma_context_step(run.with_memory.state, env.context_switch, after);
}

/// Pages that are kept twice are kept.
proof fn lemma_kept_chain(
    first: Map<u64, PageEntry<X86PageSize>>,
    second: Map<u64, PageEntry<X86PageSize>>,
    third: Map<u64, PageEntry<X86PageSize>>,
)
    requires
        pages_kept(first, second),
        pages_kept(second, third),
    ensures
        pages_kept(first, third),
{
    assert forall|k: u64| #[trigger] first.contains_key(k) implies third.contains_key(k)
        && third[k] == first[k] by {
        assert(second.contains_key(k));
    }
}

/// In the end the kernel sees all of the framebuffer, of the ramdisk and of physical memory at
/// the addresses that are reported, each as far as there is one: it can write there, and not
/// execute.
pub proof fn lemma_data_is_seen(
    config: BootloaderConfig,
    bytes: Seq<u8>,
    info: SystemInfo,
    env: BootEnvironment,
    before: Snapshot<X86PageSize>,
    run: SetUpRun,
    after: Snapshot<X86PageSize>,
    mappings: RegionMappings,
)
    requires
        boot::set_up(config, bytes, info, env, before, run, after, Ok(mappings)),
        boot::set_up_in_range(config, info, env),
    ensures
        paging::wf_entries(after.entries),
        config.mappings.physical_memory is Some ==> {
            &&& mappings.physical_memory_offset is Some
            &&& data_at(
                after.entries,
                mappings.physical_memory_offset.unwrap(),
                0,
                env.max_phys.0 as int,
            )
        },
        info.framebuffer matches Some(fb) ==> {
            &&& mappings.framebuffer is Some
            &&& data_at(
                after.entries,
                mappings.framebuffer.unwrap(),
                fb.addr.0 as int,
                fb.byte_len as int,
            )
        },
        info.ramdisk_addr matches Some(addr) ==> {
            &&& mappings.ramdisk_slice_start is Some
            &&& mappings.ramdisk_slice_phys_start == Some(PhysAddr(addr))
            &&& mappings.ramdisk_slice_len == info.ramdisk_len
            &&& data_at(
                after.entries,
                mappings.ramdisk_slice_start.unwrap(),
                addr as int,
                info.ramdisk_len as int,
            )
        },
{
    let words = boot::words_for(config, env);
    lemma_set_up_steps(config, bytes, info, env, before, run, after, mappings);
    lemma_optional_step(
        run.stacked,
        boot::framebuffer_region(info),
        config.mappings.framebuffer,
        false,
        boot::framebuffer_word(words),
        run.framed,
        run.framebuffer,
    );
    lemma_optional_step(
        run.framed,
        boot::ramdisk_region(info),
        config.mappings.ramdisk_memory,
        false,
        boot::ramdisk_word(words),
        run.with_ramdisk,
        run.ramdisk,
    );
    lemma_optional_step(
        run.with_ramdisk,
        boot::memory_region(config, env),
        boot::memory_mapping(config),
        true,
        boot::memory_word(words),
        run.with_memory,
        run.physical_memory,
    );
    let with_memory = run.with_memory.state.entries;
    let with_ramdisk = run.with_ramdisk.state.entries;
    lemma_kept_chain(with_ramdisk, with_memory, after.entries);
    lemma_kept_chain(run.framed.state.entries, with_ramdisk, after.entries);
    if let Some(fb) = info.framebuffer {
        lemma_data_kept(
            run.framed.state.entries,
            after.entries,
            run.framebuffer.unwrap(),
            fb.addr.0 as int,
            fb.byte_len as int,
        );
    }
    if let Some(addr) = info.ramdisk_addr {
        lemma_data_kept(
            with_ramdisk,
            after.entries,
            run.ramdisk.unwrap(),
            addr as int,
            info.ramdisk_len as int,
        );
    }
    if config.mappings.physical_memory is Some {
        lemma_data_kept(
            with_memory,
            after.entries,
            run.physical_memory.unwrap(),
            0,
            env.max_phys.0 as int,
        );
    }
}

/// The address lies in a range that is not free for dynamic mappings: physical memory is mapped to
/// itself there while the bootloader runs, or the framebuffer lies there, or the configuration
/// fixes what goes there, or it lies outside the range for dynamic mappings.
pub open spec fn reserved(
    config: BootloaderConfig,
    info: SystemInfo,
    env: BootEnvironment,
    v: int,
) -> bool {
    let entry = 0x80_0000_0000int;
    let mappings = config.mappings;
    ||| 0 <= v < (env.max_phys.0 + (entry - 1)) / entry * entry
    ||| info.framebuffer matches Some(fb) && fb.addr.0 <= v < fb.addr.0 + fb.byte_len
    ||| mappings.physical_memory matches Some(Mapping::FixedAddress(addr)) && addr <= v < addr
        + env.max_phys.0
    ||| mappings.page_table_recursive matches Some(Mapping::FixedAddress(addr)) && addr as int
        / entry == v / entry
    ||| mappings.kernel_stack matches Mapping::FixedAddress(addr) && addr <= v < addr + 0x1000
        + config.kernel_stack_size
    ||| mappings.boot_info matches Mapping::FixedAddress(addr) && addr <= v < addr
        + env.boot_info_size
    ||| mappings.framebuffer matches Mapping::FixedAddress(addr) && (
    info.framebuffer matches Some(fb) && addr <= v < addr + fb.byte_len)
    ||| mappings.dynamic_range_start matches Some(start) && 0 <= v < start
    ||| mappings.dynamic_range_end matches Some(end) && end <= v < 0xFFFF_FFFF_FFFF_0000
}

/// The addresses that are used before the kernel is loaded are the reserved ones.
pub proof fn lemma_start_is_reserved(
    config: BootloaderConfig,
    info: SystemInfo,
    env: BootEnvironment,
    before: Snapshot<X86PageSize>,
)
    requires
        boot::set_up_in_range(config, info, env),
    ensures
        address_space::canonical(boot::set_up_start(config, info, env, before).regions),
        forall|v: int|
            v < u64::MAX ==> (#[trigger] address_space::used(
                boot::set_up_start(config, info, env, before).regions,
            ).contains(v) <==> reserved(config, info, env, v)),
{
    let entry = 0x80_0000_0000int;
    let list = boot::reservations(config, info.framebuffer, env.max_phys, env.boot_info_size);
    let regions = boot::set_up_start(config, info, env, before).regions;
    address_space::lemma_all_marked(Seq::empty(), list);
    arith::lemma_ceil_facts(env.max_phys.0 as int, entry);
    let rounded = (env.max_phys.0 + (entry - 1)) / entry * entry;
    assert(rounded == boot::identity_map_end(env.max_phys)) by {
        let q = (env.max_phys.0 + (entry - 1)) / entry;
        vstd::arithmetic::div_mod::lemma_fundamental_div_mod(env.max_phys.0 + (entry - 1), entry);
        vstd::arithmetic::div_mod::lemma_mod_multiples_basic(q, entry);
        vstd::arithmetic::mul::lemma_mul_is_commutative(q, entry);
        let end = boot::identity_map_end(env.max_phys) as int;
        if rounded < end {
            arith::lemma_multiples_apart(rounded, end, entry);
        } else if end < rounded {
            arith::lemma_multiples_apart(end, rounded, entry);
        }
    }
    assert(list.len() == 9);
    assert forall|v: int| v < u64::MAX implies (#[trigger] address_space::used(regions).contains(v)
        <==> reserved(config, info, env, v)) by {
        if let Some(Mapping::FixedAddress(addr)) = config.mappings.page_table_recursive {
            lemma_same_entry(addr, v);
        }
        let in_list = exists|i: int|
            0 <= i < list.len() && (#[trigger] list[i]).0 <= v < list[i].0 + list[i].1 && v
                < u64::MAX;
        if reserved(config, info, env, v) {
            assert(in_list) by {
                assert(list[0].0 <= v < list[0].0 + list[0].1 || list[1].0 <= v < list[1].0
                    + list[1].1 || list[2].0 <= v < list[2].0 + list[2].1 || list[3].0 <= v
                    < list[3].0 + list[3].1 || list[4].0 <= v < list[4].0 + list[4].1
                    || list[5].0 <= v < list[5].0 + list[5].1 || list[6].0 <= v < list[6].0
                    + list[6].1 || list[7].0 <= v < list[7].0 + list[7].1 || list[8].0 <= v
                    < list[8].0 + list[8].1);
            }
        }
    }
}

/// Two addresses are covered by the same entry of the level 4 page table.
proof fn lemma_same_entry(addr: u64, v: int)
    ensures
        ({
            let entry = 0x80_0000_0000int;
            let first = arith::floor_to(addr as int, entry);
            addr as int / entry == v / entry <==> first <= v < first + entry
        }),
        0 <= arith::floor_to(addr as int, 0x80_0000_0000) <= addr,
{
    let entry = 0x80_0000_0000int;
    arith::lemma_floor_facts(addr as int, entry);
    let first = arith::floor_to(addr as int, entry);
    vstd::arithmetic::div_mod::lemma_fundamental_div_mod(addr as int, entry);
    vstd::arithmetic::div_mod::lemma_fundamental_div_mod(v, entry);
    vstd::arithmetic::div_mod::lemma_fundamental_div_mod(first, entry);
    let q = addr as int / entry;
    let f = first / entry;
    assert(f == q) by (nonlinear_arith)
        requires
            entry > 0,
            first == entry * f,
            addr as int == entry * q + addr as int % entry,
            0 <= addr as int % entry < entry,
            first <= addr < first + entry,
    ;
    let w = v / entry;
    assert(q == w <==> entry * q <= v < entry * q + entry) by (nonlinear_arith)
        requires
            entry > 0,
            v == entry * w + v % entry,
            0 <= v % entry < entry,
    ;
}

/// The random word for one region: there is none unless the configuration asks for random
/// addresses and the system has words.
pub open spec fn aslr_word(
    config: BootloaderConfig,
    env: BootEnvironment,
    word: spec_fn(boot::AslrWords) -> u64,
) -> Option<u64> {
    match env.rng {
        Some(words) => if config.mappings.aslr {
            Some(word(words))
        } else {
            None
        },
        None => None,
    }
}

/// The region of `size` bytes at `virt` lies outside all reserved ranges.
pub open spec fn unreserved(
    config: BootloaderConfig,
    info: SystemInfo,
    env: BootEnvironment,
    virt: int,
    size: int,
) -> bool {
    forall|v: int| virt <= v < virt + size ==> !#[trigger] reserved(config, info, env, v)
}

/// All reserved addresses are used.
pub open spec fn reserved_is_used(
    config: BootloaderConfig,
    info: SystemInfo,
    env: BootEnvironment,
    regions: Seq<(u64, u64)>,
) -> bool {
    forall|v: int| #[trigger]
        reserved(config, info, env, v) && v < u64::MAX ==> address_space::used(regions).contains(v)
}

/// Used addresses stay used.
proof fn lemma_still_reserved(
    config: BootloaderConfig,
    info: SystemInfo,
    env: BootEnvironment,
    first: Seq<(u64, u64)>,
    second: Seq<(u64, u64)>,
)
    requires
        reserved_is_used(config, info, env, first),
        forall|v: int| #[trigger]
            address_space::used(first).contains(v) ==> address_space::used(second).contains(v),
    ensures
        reserved_is_used(config, info, env, second),
{
    assert forall|v: int| #[trigger] reserved(config, info, env, v) && v < u64::MAX implies
        address_space::used(second).contains(v) by {
        assert(address_space::used(first).contains(v));
    }
}

/// What is reserved at the start is used at all times.
pub proof fn lemma_reserved_stays_used(
    config: BootloaderConfig,
    bytes: Seq<u8>,
    info: SystemInfo,
    env: BootEnvironment,
    before: Snapshot<X86PageSize>,
    run: SetUpRun,
    after: Snapshot<X86PageSize>,
    mappings: RegionMappings,
)
    requires
        boot::set_up(config, bytes, info, env, before, run, after, Ok(mappings)),
        boot::set_up_in_range(config, info, env),
    ensures
        reserved_is_used(
            config,
            info,
            env,
            boot::set_up_start(config, info, env, before).regions,
        ),
        reserved_is_used(config, info, env, run.loaded.regions),
        reserved_is_used(config, info, env, run.stacked.regions),
        reserved_is_used(config, info, env, run.framed.regions),
        reserved_is_used(config, info, env, run.with_ramdisk.regions),
        reserved_is_used(config, info, env, mappings.address_space@),
{
    let words = boot::words_for(config, env);
    let start = boot::set_up_start(config, info, env, before);
    lemma_set_up_steps(config, bytes, info, env, before, run, after, mappings);
    assert(reserved_is_used(config, info, env, start.regions)) by {
        lemma_start_is_reserved(config, info, env, before);
        assert forall|v: int| #[trigger] reserved(config, info, env, v) && v < u64::MAX implies
            address_space::used(start.regions).contains(v) by {}
    }
    lemma_kernel_step(
        start,
        bytes,
        env.kernel_start,
        env.kernel_reserved,
        config.mappings.kernel_base,
        boot::kernel_word(words),
        run.loaded,
        run.kernel,
    );
    lemma_still_reserved(config, info, env, start.regions, run.loaded.regions);
    lemma_stack_step(
        run.loaded,
        config.mappings.kernel_stack,
        config.kernel_stack_size,
        run.stacked,
        run.stack,
    );
    lemma_still_reserved(config, info, env, run.loaded.regions, run.stacked.regions);
    lemma_optional_step(
        run.stacked,
        boot::framebuffer_region(info),
        config.mappings.framebuffer,
        false,
        boot::framebuffer_word(words),
        run.framed,
        run.framebuffer,
    );
    lemma_still_reserved(config, info, env, run.stacked.regions, run.framed.regions);
    lemma_optional_step(
        run.framed,
        boot::ramdisk_region(info),
        config.mappings.ramdisk_memory,
        false,
        boot::ramdisk_word(words),
        run.with_ramdisk,
        run.ramdisk,
    );
    lemma_still_reserved(config, info, env, run.framed.regions, run.with_ramdisk.regions);
    lemma_optional_step(
        run.with_ramdisk,
        boot::memory_region(config, env),
        boot::memory_mapping(config),
        true,
        boot::memory_word(words),
        run.with_memory,
        run.physical_memory,
    );
    lemma_still_reserved(config, info, env, run.with_ramdisk.regions, run.with_memory.regions);
}

/// What is free is not reserved.
proof fn lemma_free_is_unreserved(
    config: BootloaderConfig,
    info: SystemInfo,
    env: BootEnvironment,
    regions: Seq<(u64, u64)>,
    virt: int,
    size: int,
)
    requires
        reserved_is_used(config, info, env, regions),
        virt + size <= u64::MAX,
        forall|v: int|
            virt <= v < virt + size ==> !#[trigger] address_space::used(regions).contains(v),
    ensures
        unreserved(config, info, env, virt, size),
{
    assert forall|v: int| virt <= v < virt + size implies !#[trigger] reserved(
        config,
        info,
        env,
        v,
    ) by {
        assert(!address_space::used(regions).contains(v));
    }
}

/// Where the stack goes: right above its guard page, which lies at the fixed address or at the
/// lowest free place for both. The random words do not concern it.
pub proof fn lemma_stack_is_placed(
    config: BootloaderConfig,
    bytes: Seq<u8>,
    info: SystemInfo,
    env: BootEnvironment,
    before: Snapshot<X86PageSize>,
    run: SetUpRun,
    after: Snapshot<X86PageSize>,
    mappings: RegionMappings,
)
    requires
        boot::set_up(config, bytes, info, env, before, run, after, Ok(mappings)),
        boot::set_up_in_range(config, info, env),
    ensures
        match config.mappings.kernel_stack {
            Mapping::FixedAddress(addr) => mappings.stack_bottom.0 == addr + 0x1000,
            Mapping::Dynamic => {
                &&& address_space::free_address(
                    run.loaded.regions,
                    (config.kernel_stack_size + 0x1000) as u64,
                    0x1000,
                    None,
                ) == Some(mappings.stack_bottom.0 - 0x1000)
                &&& unreserved(
                    config,
                    info,
                    env,
                    mappings.stack_bottom.0 - 0x1000,
                    config.kernel_stack_size + 0x1000,
                )
            },
        },
        mappings.stack_top.0 as int % 16 == 0,
        mappings.stack_top.0 <= mappings.stack_bottom.0 + config.kernel_stack_size
            < mappings.stack_top.0 + 16,
{
    lemma_set_up_steps(config, bytes, info, env, before, run, after, mappings);
    lemma_reserved_stays_used(config, bytes, info, env, before, run, after, mappings);
    lemma_stack_step(
        run.loaded,
        config.mappings.kernel_stack,
        config.kernel_stack_size,
        run.stacked,
        run.stack,
    );
    if config.mappings.kernel_stack is Dynamic {
        x86_64::lemma_page_sizes();
        address_space::lemma_found_is_free(
            run.loaded.regions,
            (config.kernel_stack_size + 0x1000) as u64,
            0x1000,
            None,
        );
        lemma_free_is_unreserved(
            config,
            info,
            env,
            run.loaded.regions,
            mappings.stack_bottom.0 - 0x1000,
            config.kernel_stack_size + 0x1000,
        );
    }
}

/// Where the framebuffer and the ramdisk go: to the fixed address, or each with its own random
/// word to a place that is free at that time and not reserved.
pub proof fn lemma_devices_are_placed(
    config: BootloaderConfig,
    bytes: Seq<u8>,
    info: SystemInfo,
    env: BootEnvironment,
    before: Snapshot<X86PageSize>,
    run: SetUpRun,
    after: Snapshot<X86PageSize>,
    mappings: RegionMappings,
)
    requires
        boot::set_up(config, bytes, info, env, before, run, after, Ok(mappings)),
        boot::set_up_in_range(config, info, env),
    ensures
        info.framebuffer matches Some(fb) ==> match config.mappings.framebuffer {
            Mapping::FixedAddress(addr) => mappings.framebuffer == Some(VirtAddr(addr)),
            Mapping::Dynamic => {
                &&& mappings.framebuffer is Some
                &&& placed_freely(
                    run.stacked.regions,
                    fb.byte_len,
                    false,
                    aslr_word(config, env, |words: boot::AslrWords| words.framebuffer),
                    mappings.framebuffer.unwrap(),
                )
                &&& unreserved(
                    config,
                    info,
                    env,
                    mappings.framebuffer.unwrap().0 as int,
                    fb.byte_len as int,
                )
            },
        },
        info.ramdisk_addr is Some ==> match config.mappings.ramdisk_memory {
            Mapping::FixedAddress(addr) => mappings.ramdisk_slice_start == Some(VirtAddr(addr)),
            Mapping::Dynamic => {
                &&& mappings.ramdisk_slice_start is Some
                &&& placed_freely(
                    run.framed.regions,
                    info.ramdisk_len,
                    false,
                    aslr_word(config, env, |words: boot::AslrWords| words.ramdisk),
                    mappings.ramdisk_slice_start.unwrap(),
                )
                &&& unreserved(
                    config,
                    info,
                    env,
                    mappings.ramdisk_slice_start.unwrap().0 as int,
                    info.ramdisk_len as int,
                )
            },
        },
        mappings.framebuffer is None <==> info.framebuffer is None,
        mappings.ramdisk_slice_start is None <==> info.ramdisk_addr is None,
{
    let words = boot::words_for(config, env);
    lemma_set_up_steps(config, bytes, info, env, before, run, after, mappings);
    lemma_reserved_stays_used(config, bytes, info, env, before, run, after, mappings);
    lemma_optional_step(
        run.stacked,
        boot::framebuffer_region(info),
        config.mappings.framebuffer,
        false,
        boot::framebuffer_word(words),
        run.framed,
        run.framebuffer,
    );
    lemma_optional_step(
        run.framed,
        boot::ramdisk_region(info),
        config.mappings.ramdisk_memory,
        false,
        boot::ramdisk_word(words),
        run.with_ramdisk,
        run.ramdisk,
    );
    if let Some(fb) = info.framebuffer {
        if config.mappings.framebuffer is Dynamic {
            lemma_free_is_unreserved(
                config,
                info,
                env,
                run.stacked.regions,
                run.framebuffer.unwrap().0 as int,
                fb.byte_len as int,
            );
        }
    }
    if info.ramdisk_addr is Some && config.mappings.ramdisk_memory is Dynamic {
        lemma_free_is_unreserved(
            config,
            info,
            env,
            run.framed.regions,
            run.ramdisk.unwrap().0 as int,
            info.ramdisk_len as int,
        );
    }
}

/// Where physical memory is mapped: nowhere, at the fixed address, or with its own random word at
/// a place that is free at that time, not reserved, and aligned for huge pages.
pub proof fn lemma_memory_is_placed(
    config: BootloaderConfig,
    bytes: Seq<u8>,
    info: SystemInfo,
    env: BootEnvironment,
    before: Snapshot<X86PageSize>,
    run: SetUpRun,
    after: Snapshot<X86PageSize>,
    mappings: RegionMappings,
)
    requires
        boot::set_up(config, bytes, info, env, before, run, after, Ok(mappings)),
        boot::set_up_in_range(config, info, env),
    ensures
        match config.mappings.physical_memory {
            None => mappings.physical_memory_offset is None,
            Some(Mapping::FixedAddress(addr)) => mappings.physical_memory_offset == Some(
                VirtAddr(addr),
            ),
            Some(Mapping::Dynamic) => {
                &&& mappings.physical_memory_offset is Some
                &&& placed_freely(
                    run.with_ramdisk.regions,
                    env.max_phys.0,
                    true,
                    aslr_word(config, env, |words: boot::AslrWords| words.physical_memory),
                    mappings.physical_memory_offset.unwrap(),
                )
                &&& unreserved(
                    config,
                    info,
                    env,
                    mappings.physical_memory_offset.unwrap().0 as int,
                    env.max_phys.0 as int,
                )
            },
        },
{
    let words = boot::words_for(config, env);
    lemma_set_up_steps(config, bytes, info, env, before, run, after, mappings);
    lemma_reserved_stays_used(config, bytes, info, env, before, run, after, mappings);
    lemma_optional_step(
        run.with_ramdisk,
        boot::memory_region(config, env),
        boot::memory_mapping(config),
        true,
        boot::memory_word(words),
        run.with_memory,
        run.physical_memory,
    );
    if let Some(Mapping::Dynamic) = config.mappings.physical_memory {
        lemma_free_is_unreserved(
            config,
            info,
            env,
            run.with_ramdisk.regions,
            run.physical_memory.unwrap().0 as int,
            env.max_phys.0 as int,
        );
    }
}

/// What a page table maps stays mapped to the same place while no page changes.
proof fn lemma_phys_kept(
    first: Map<u64, PageEntry<X86PageSize>>,
    second: Map<u64, PageEntry<X86PageSize>>,
    v: int,
)
    requires
        paging::wf_entries(first),
        paging::wf_entries(second),
        pages_kept(first, second),
        paging::mapped(first, v),
    ensures
        paging::mapped(second, v),
        paging::page_at(second, v) == paging::page_at(first, v),
        paging::phys_at(second, v) == paging::phys_at(first, v),
        second[paging::page_at(second, v)] == first[paging::page_at(first, v)],
{
    let k = paging::page_at(first, v);
    assert(paging::covers(first, k, v));
    assert(paging::covers(second, k, v));
    paging::lemma_page_at(second, k, v);
}

/// In the end the kernel has its stack: all of it is mapped, zeroed, can be written and not
/// executed, and no two addresses of it lead to the same byte.
pub proof fn lemma_stack_is_seen(
    config: BootloaderConfig,
    bytes: Seq<u8>,
    info: SystemInfo,
    env: BootEnvironment,
    before: Snapshot<X86PageSize>,
    run: SetUpRun,
    after: Snapshot<X86PageSize>,
    mappings: RegionMappings,
)
    requires
        boot::set_up(config, bytes, info, env, before, run, after, Ok(mappings)),
        boot::set_up_in_range(config, info, env),
    ensures
        forall|v: int|
            mappings.stack_bottom.0 <= v < mappings.stack_bottom.0 + config.kernel_stack_size ==> {
                let phys = #[trigger] paging::phys_at(after.entries, v);
                &&& maps_to(
                    after.entries,
                    v,
                    phys,
                    (PageFlags { writable: true, executable: false }),
                )
                &&& after.memory[phys] == 0
            },
        forall|u: int, v: int|
            mappings.stack_bottom.0 <= u < v < mappings.stack_bottom.0 + config.kernel_stack_size
                ==> #[trigger] paging::phys_at(after.entries, u) != #[trigger] paging::phys_at(
                after.entries,
                v,
            ),
{
    lemma_set_up_steps(config, bytes, info, env, before, run, after, mappings);
    lemma_stack_step(
        run.loaded,
        config.mappings.kernel_stack,
        config.kernel_stack_size,
        run.stacked,
        run.stack,
    );
    let stacked = run.stacked.state.entries;
    lemma_stacked_kept(config, bytes, info, env, before, run, after, mappings);
    let flags = PageFlags { writable: true, executable: false };
    let bottom = mappings.stack_bottom.0 as int;
    let size = config.kernel_stack_size as int;
    assert forall|v: int| bottom <= v < bottom + size implies #[trigger] paging::phys_at(
        after.entries,
        v,
    ) == paging::phys_at(stacked, v) && maps_to(
        after.entries,
        v,
        paging::phys_at(stacked, v),
        flags,
    ) && after.memory[paging::phys_at(stacked, v)] == 0 by {
        let phys = paging::phys_at(stacked, v);
        assert(maps_to(stacked, v, phys, flags));
        let k = choose|k: u64| #[trigger]
            paging::covers(stacked, k, v) && stacked[k].phys + (v - k) == phys && stacked[k].flags
                == flags;
        assert(paging::covers(after.entries, k, v));
        lemma_phys_kept(stacked, after.entries, v);
    }
}

/// Setting up the regions behind the stack changes no page that was there before.
proof fn lemma_stacked_kept(
    config: BootloaderConfig,
    bytes: Seq<u8>,
    info: SystemInfo,
    env: BootEnvironment,
    before: Snapshot<X86PageSize>,
    run: SetUpRun,
    after: Snapshot<X86PageSize>,
    mappings: RegionMappings,
)
    requires
        boot::set_up(config, bytes, info, env, before, run, after, Ok(mappings)),
        boot::set_up_in_range(config, info, env),
    ensures
        pages_kept(run.stacked.state.entries, after.entries),
{
    lemma_set_up_steps(config, bytes, info, env, before, run, after, mappings);
    let with_memory = run.with_memory.state.entries;
    let with_ramdisk = run.with_ramdisk.state.entries;
    let framed = run.framed.state.entries;
    lemma_kept_chain(with_ramdisk, with_memory, after.entries);
    lemma_kept_chain(framed, with_ramdisk, after.entries);
    lemma_kept_chain(run.stacked.state.entries, framed, after.entries);
}

/// In the end the kernel sees itself as it was loaded, at the place that the configuration asks
/// for and without huge pages, and what is reported of it is what loading it gave. The addresses
/// that were free for it are those that are not reserved.
pub proof fn lemma_kernel_is_seen(
    config: BootloaderConfig,
    bytes: Seq<u8>,
    info: SystemInfo,
    env: BootEnvironment,
    before: Snapshot<X86PageSize>,
    run: SetUpRun,
    after: Snapshot<X86PageSize>,
    mappings: RegionMappings,
)
    requires
        boot::set_up(config, bytes, info, env, before, run, after, Ok(mappings)),
        boot::set_up_in_range(config, info, env),
    ensures
        elf_file::parsed(bytes) matches Some(elf) && loader::kernel_loaded(
            elf,
            before,
            boot::set_up_start(config, info, env, before).regions,
            env.kernel_start,
            match config.mappings.kernel_base {
                Mapping::Dynamic => KernelPlacement::Auto,
                Mapping::FixedAddress(addr) => KernelPlacement::Fixed(VirtAddr(addr)),
            },
            false,
            aslr_word(config, env, |words: boot::AslrWords| words.kernel),
            run.loaded.state,
            run.loaded.regions,
            Ok(run.kernel),
        ),
        env.kernel_start.0 as int % 0x1000 == 0,
        mappings.entry_point == run.kernel.entry_point,
        mappings.tls_template == run.kernel.tls_template,
        mappings.kernel_image_offset.0 == run.kernel.load_base as int % 0x1_0000_0000_0000_0000,
        mappings.kernel_slice_start == env.kernel_start,
        mappings.kernel_slice_len == bytes.len(),
        forall|v: int| #[trigger]
            run.loaded.state.vm().contains_key(v) ==> after.vm().contains_key(v) && after.vm()[v]
                == run.loaded.state.vm()[v],
{
    let words = boot::words_for(config, env);
    lemma_set_up_steps(config, bytes, info, env, before, run, after, mappings);
    lemma_kernel_step(
        boot::set_up_start(config, info, env, before),
        bytes,
        env.kernel_start,
        env.kernel_reserved,
        config.mappings.kernel_base,
        boot::kernel_word(words),
        run.loaded,
        run.kernel,
    );
    lemma_stack_step(
        run.loaded,
        config.mappings.kernel_stack,
        config.kernel_stack_size,
        run.stacked,
        run.stack,
    );
    lemma_stacked_kept(config, bytes, info, env, before, run, after, mappings);
    let loaded = run.loaded.state;
    lemma_kept_chain(loaded.entries, run.stacked.state.entries, after.entries);
    assert forall|v: int| #[trigger]
        loaded.vm().contains_key(v) implies after.vm().contains_key(v) && after.vm()[v]
        == loaded.vm()[v] by {
        assert(paging::mapped(loaded.entries, v));
        lemma_phys_kept(loaded.entries, after.entries, v);
        let phys = paging::phys_at(loaded.entries, v);
        assert(!loaded.available.contains(phys));
        assert(!loaded.owned(Seq::empty()).contains(phys));
        assert(run.stacked.state.memory[phys] == loaded.memory[phys]);
    }
}

/// The mappings that are handed on once the recursive entry is chosen: there is a recursive entry
/// if and only if the configuration asks for one, and it was not in use. The kernel file and the
/// ramdisk are where the system has them and as long as there, and everything else is where
/// setting up put it.
pub proof fn lemma_mappings_are_handed_on(
    config: BootloaderConfig,
    bytes: Seq<u8>,
    info: SystemInfo,
    env: BootEnvironment,
    before: Snapshot<X86PageSize>,
    run: SetUpRun,
    after: Snapshot<X86PageSize>,
    regions: RegionMappings,
    used: Seq<bool>,
    index: Option<u16>,
    mappings: boot::Mappings,
)
    requires
        boot::set_up(config, bytes, info, env, before, run, after, Ok(regions)),
        used.len() == 512,
        boot_info::recursive_choice(config, used) == Ok::<Option<u16>, boot_info::RecursiveError>(
            index,
        ),
        boot_info::all_mappings(regions, index, mappings),
    ensures
        mappings.recursive_index is Some <==> config.mappings.page_table_recursive is Some,
        mappings.recursive_index is Some ==> !used[mappings.recursive_index->Some_0 as int],
        mappings.kernel_slice_start == env.kernel_start,
        mappings.kernel_slice_len == bytes.len(),
        mappings.ramdisk_slice_phys_start is Some <==> info.ramdisk_addr is Some,
        info.ramdisk_addr is Some ==> mappings.ramdisk_slice_phys_start->Some_0.0
            == info.ramdisk_addr->Some_0,
        mappings.ramdisk_slice_len == info.ramdisk_len,
        mappings.entry_point == run.kernel.entry_point,
        mappings.tls_template == run.kernel.tls_template,
        mappings.kernel_image_offset.0 == run.kernel.load_base as int % 0x1_0000_0000_0000_0000,
        mappings.stack_bottom == run.stack.0,
        mappings.stack_top == run.stack.1,
        mappings.framebuffer == run.framebuffer,
        mappings.ramdisk_slice_start == run.ramdisk,
        mappings.physical_memory_offset == run.physical_memory,
        mappings.address_space@ == run.with_memory.regions,
{
    if config.mappings.page_table_recursive is Some {
        boot_info::lemma_recursive_entry(config.mappings.page_table_recursive.unwrap(), used);
    }
}

/// The byte at `v` is one and the same in both address spaces. It can be written, but not
/// executed, and its memory was handed out for it.
pub open spec fn seen_by_both(
    kernel: Map<u64, PageEntry<X86PageSize>>,
    bootloader: Map<u64, PageEntry<X86PageSize>>,
    v: int,
    available: Set<int>,
    available_after: Set<int>,
) -> bool {
    let flags = PageFlags { writable: true, executable: false };
    exists|phys: int|
        {
            &&& #[trigger] maps_to(kernel, v, phys, flags)
            &&& maps_to(bootloader, v, phys, flags)
            &&& available.contains(phys)
            &&& !available_after.contains(phys)
        }
}

/// All of the boot info is seen by the kernel and by the bootloader at the same addresses.
pub proof fn lemma_boot_info_is_seen(
    addr: VirtAddr,
    size: u64,
    kernel: Map<u64, PageEntry<X86PageSize>>,
    bootloader: Map<u64, PageEntry<X86PageSize>>,
    available: Set<int>,
    available_after: Set<int>,
)
    requires
        size > 0,
        addr.0 + size <= u64::MAX,
        boot_info::pages_shared(
            kernel,
            bootloader,
            arith::floor_to(addr.0 as int, PAGE_SIZE as int),
            arith::floor_to(addr.0 + size - 1, PAGE_SIZE as int) + PAGE_SIZE,
            available,
            available_after,
        ),
    ensures
        forall|v: int|
            addr.0 <= v < addr.0 + size ==> #[trigger] seen_by_both(
                kernel,
                bootloader,
                v,
                available,
                available_after,
            ),
{
    arith::lemma_floor_facts(addr.0 as int, PAGE_SIZE as int);
    arith::lemma_floor_facts(addr.0 + size - 1, PAGE_SIZE as int);
    assert forall|v: int| addr.0 <= v < addr.0 + size implies #[trigger] seen_by_both(
        kernel,
        bootloader,
        v,
        available,
        available_after,
    ) by {
        let page = (v - v % 0x1000) as u64;
        assert(boot_info::page_shared(kernel, bootloader, page, available, available_after));
        let phys = kernel[page].phys + (v - page);
        assert(paging::covers(kernel, page, v));
        assert(paging::covers(bootloader, page, v));
        assert(maps_to(
            kernel,
            v,
            phys,
            (PageFlags { writable: true, executable: false }),
        ));
        assert(available.contains(phys));
    }
}

/// In the end the code that switches to the kernel can go on: its page and the page behind it are
/// mapped to themselves, and can be executed.
pub proof fn lemma_context_switch_is_seen(
    config: BootloaderConfig,
    bytes: Seq<u8>,
    info: SystemInfo,
    env: BootEnvironment,
    before: Snapshot<X86PageSize>,
    run: SetUpRun,
    after: Snapshot<X86PageSize>,
    mappings: RegionMappings,
)
    requires
        boot::set_up(config, bytes, info, env, before, run, after, Ok(mappings)),
        boot::set_up_in_range(config, info, env),
    ensures
        forall|v: int|
            env.context_switch.0 <= v < env.context_switch.0 + 0x1000 ==> #[trigger] maps_to(
                after.entries,
                v,
                v,
                (PageFlags { writable: false, executable: true }),
            ),
{
    lemma_set_up_steps(config, bytes, info, env, before, run, after, mappings);
    lemma_context_step(run.with_memory.state, env.context_switch, after);
    arith::lemma_floor_facts(env.context_switch.0 as int, 0x1000);
}

/// What setting up can compute: it is in range as long as no region runs over the end of the
/// address space and physical memory ends well before.
pub proof fn lemma_ordinary_set_up(config: BootloaderConfig, info: SystemInfo, env: BootEnvironment)
    requires
        env.max_phys.0 <= 0xFFFF_FF80_0000_0000,
        env.context_switch.0 < 0xFFFF_FFFF_FFFF_F000,
        config.kernel_stack_size <= 0xFFFF_FFFF_FFFF_F000 - 1,
        info.framebuffer matches Some(fb) ==> fb.addr.0 + fb.byte_len <= u64::MAX && fb.byte_len
            <= 0xFFFF_FFFF_FFFF_F000,
        info.ramdisk_addr matches Some(addr) ==> addr + info.ramdisk_len <= u64::MAX
            && info.ramdisk_len <= 0xFFFF_FFFF_FFFF_F000,
        config.mappings.kernel_stack matches Mapping::FixedAddress(addr) ==> addr + 0x1000
            + config.kernel_stack_size <= u64::MAX,
        config.mappings.framebuffer matches Mapping::FixedAddress(addr) ==> (
        info.framebuffer matches Some(fb) ==> addr + fb.byte_len <= u64::MAX),
        config.mappings.ramdisk_memory matches Mapping::FixedAddress(addr) ==> addr
            + info.ramdisk_len <= u64::MAX,
        config.mappings.physical_memory matches Some(Mapping::FixedAddress(addr)) ==> addr
            + env.max_phys.0 <= u64::MAX,
    ensures
        boot::set_up_in_range(config, info, env),
{
    arith::lemma_floor_facts(env.context_switch.0 as int, PAGE_SIZE as int);
    if let Some(fb) = info.framebuffer {
        arith::lemma_floor_facts(fb.byte_len - 1, PAGE_SIZE as int);
    }
    arith::lemma_floor_facts(info.ramdisk_len - 1, PAGE_SIZE as int);
    arith::lemma_floor_facts(env.max_phys.0 - 1, PAGE_SIZE as int);
    if arith::floor_to(env.context_switch.0 as int, PAGE_SIZE as int) > 0xFFFF_FFFF_FFFF_E000 {
        arith::lemma_multiples_apart(
            0xFFFF_FFFF_FFFF_E000,
            arith::floor_to(env.context_switch.0 as int, PAGE_SIZE as int),
            PAGE_SIZE as int,
        );
    }
}

/// Why a data region cannot be mapped: it is empty, there is no place for it, or the platform
/// refuses.
proof fn lemma_data_fails(
    before: Progress,
    region: Option<(PhysAddr, u64)>,
    mapping: Mapping,
    use_huge_pages: bool,
    rng: Option<u64>,
    after: Progress,
    e: LoadError,
)
    requires
        boot::optional_step(before, region, mapping, use_huge_pages, rng, after, Err(e)),
    ensures
        region is Some,
        e is InvalidPlacement <==> region.unwrap().1 == 0,
        e is AddressSpaceFull ==> mapping is Dynamic && address_space::free_address(
            before.regions,
            arith::ceil_to(region.unwrap().1 as int, 0x1000) as u64,
            if use_huge_pages {
                0x20_0000
            } else {
                0x1000
            },
            rng,
        ) is None,
        e is InvalidPlacement || e is AddressSpaceFull || e is MappingFailed,
        e is InvalidPlacement || e is AddressSpaceFull ==> after == before,
        e matches LoadError::MappingFailed(reason) ==> after.state.refusals
            == before.state.refusals.push((after.state.refusals.last().0, reason)),
{
    reveal(boot::optional_step);
    x86_64::lemma_page_sizes();
    x86_bridge::lemma_base();
}

/// What is wrong when setting up fails. An error for the framebuffer, the ramdisk or physical
/// memory is reported only where there is such a region, and it says that the region is empty,
/// that no address is free for it, or that the platform refused to map it. For the stack it says
/// that no address is free, or that the platform refused a frame or a mapping.
pub proof fn lemma_failures(
    config: BootloaderConfig,
    bytes: Seq<u8>,
    info: SystemInfo,
    env: BootEnvironment,
    before: Snapshot<X86PageSize>,
    run: SetUpRun,
    after: Snapshot<X86PageSize>,
    error: boot::SetUpError,
)
    requires
        boot::set_up(config, bytes, info, env, before, run, after, Err(error)),
    ensures
        match error {
            boot::SetUpError::Framebuffer(e) => {
                &&& info.framebuffer matches Some(fb) && (e is InvalidPlacement <==> fb.byte_len
                    == 0)
                &&& e is InvalidPlacement || e is AddressSpaceFull || e is MappingFailed
                &&& e is AddressSpaceFull ==> config.mappings.framebuffer is Dynamic
            },
            boot::SetUpError::Ramdisk(e) => {
                &&& info.ramdisk_addr is Some
                &&& e is InvalidPlacement <==> info.ramdisk_len == 0
                &&& e is InvalidPlacement || e is AddressSpaceFull || e is MappingFailed
                &&& e is AddressSpaceFull ==> config.mappings.ramdisk_memory is Dynamic
            },
            boot::SetUpError::PhysicalMemory(e) => {
                &&& config.mappings.physical_memory is Some
                &&& e is InvalidPlacement <==> env.max_phys.0 == 0
                &&& e is InvalidPlacement || e is AddressSpaceFull || e is MappingFailed
                &&& e is AddressSpaceFull ==> config.mappings.physical_memory == Some(
                    Mapping::Dynamic,
                )
            },
            boot::SetUpError::NoStackRegion => {
                &&& config.mappings.kernel_stack is Dynamic
                &&& address_space::free_address(
                    run.loaded.regions,
                    (config.kernel_stack_size + 0x1000) as u64,
                    0x1000,
                    None,
                ) is None
            },
            boot::SetUpError::Stack(e) => e is FrameAllocationFailed || e is MappingFailed,
            boot::SetUpError::Kernel(_) => env.kernel_start.0 as int % 0x1000 == 0
                && elf_file::parsed(bytes) is Some || after == before,
            boot::SetUpError::KernelOutOfRange => after == before,
            boot::SetUpError::ContextSwitch(e) => after.refusals == run.with_memory.state.refusals.push(
                (after.refusals.last().0, e),
            ),
        },
{
    let words = boot::words_for(config, env);
    reveal(boot::stack_step);
    reveal(boot::kernel_step);
    reveal(boot::context_step);
    x86_64::lemma_page_sizes();
    x86_bridge::lemma_base();
    match error {
        boot::SetUpError::Framebuffer(e) => {
            lemma_data_fails(
                run.stacked,
                boot::framebuffer_region(info),
                config.mappings.framebuffer,
                false,
                boot::framebuffer_word(words),
                run.framed,
                e,
            );
        },
        boot::SetUpError::Ramdisk(e) => {
            lemma_data_fails(
                run.framed,
                boot::ramdisk_region(info),
                config.mappings.ramdisk_memory,
                false,
                boot::ramdisk_word(words),
                run.with_ramdisk,
                e,
            );
        },
        boot::SetUpError::PhysicalMemory(e) => {
            lemma_data_fails(
                run.with_ramdisk,
                boot::memory_region(config, env),
                boot::memory_mapping(config),
                true,
                boot::memory_word(words),
                run.with_memory,
                e,
            );
        },
        _ => {},
    }
}

} // verus!
