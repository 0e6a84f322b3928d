//! Mapping a contiguous physical region with as few pages as alignment permits.

use crate::arith;
use crate::error::{LoadError, MapError};
use crate::paging;
use crate::paging::PageEntry;
use crate::physical;
use crate::traits;
use crate::traits::{
    FrameAllocator, PageFlags, PageSize, PageTable, PhysAddr, Request, VirtAddr,
};
use vstd::prelude::*;

verus! {

/// A page of the given size can map `left` bytes from `virt` to `phys`.
pub open spec fn size_fits<S: PageSize>(size: S, virt: int, phys: int, left: int) -> bool {
    &&& size.size() <= left
    &&& virt % size.size() as int == 0
    &&& phys % size.size() as int == 0
}

/// The first of `sizes` that fits, or else the base size.
pub open spec fn first_fit<S: PageSize>(sizes: Seq<S>, virt: int, phys: int, left: int) -> S
    decreases sizes.len(),
{
    if sizes.len() == 0 {
        S::BASE
    } else if size_fits(sizes[0], virt, phys, left) {
        sizes[0]
    } else {
        first_fit(sizes.drop_first(), virt, phys, left)
    }
}

/// The size of the page that maps `virt` to `phys` when `left` bytes remain.
pub open spec fn page_size_for<S: PageSize>(
    virt: int,
    phys: int,
    left: int,
    use_huge_pages: bool,
) -> S {
    if use_huge_pages {
        first_fit(S::huge_sizes(), virt, phys, left)
    } else {
        S::BASE
    }
}

/// The pages that map `left` bytes from `virt` on to the physical bytes from `phys` on.
pub open spec fn page_plan<S: PageSize>(
    virt: int,
    phys: int,
    left: int,
    flags: PageFlags,
    use_huge_pages: bool,
) -> Map<u64, PageEntry<S>>
    decreases
            (if left > 0 {
                left
            } else {
                0
            }),
{
    let size: S = page_size_for(virt, phys, left, use_huge_pages);
    if left <= 0 || size.size() == 0 {
        Map::empty()
    } else {
        page_plan(
            virt + size.size(),
            phys + size.size(),
            left - size.size(),
            flags,
            use_huge_pages,
        ).insert(virt as u64, PageEntry { phys: phys as u64, flags, size })
    }
}

/// The pages of a plan that start below `at` were added to the page table, the page at `at` was
/// refused, and `error` reports that.
pub open spec fn refused_at<S: PageSize>(
    before: Map<u64, PageEntry<S>>,
    refusals: Seq<(Request<S>, MapError)>,
    plan: Map<u64, PageEntry<S>>,
    at: u64,
    after: Map<u64, PageEntry<S>>,
    refusals_after: Seq<(Request<S>, MapError)>,
    error: LoadError,
) -> bool {
    &&& plan.contains_key(at)
    &&& after == before.union_prefer_right(physical::below(plan, at as int))
    &&& match error {
        LoadError::MappingFailed(reason) => refusals_after == refusals.push(
            (Request::MapPage { virt: at, entry: plan[at] }, reason),
        ),
        _ => false,
    }
}

/// The page sizes of the platform are powers of two, and none is below the base size.
pub open spec fn valid_sizes<S: PageSize>() -> bool {
    &&& vstd::arithmetic::power2::is_pow2(S::BASE.size() as int)
    &&& S::BASE.size() > 0
    &&& forall|i: int|
        0 <= i < S::huge_sizes().len() ==> (#[trigger] S::huge_sizes()[i]).size() >= S::BASE.size()
            && vstd::arithmetic::power2::is_pow2(S::huge_sizes()[i].size() as int)
}

/// The first size that fits is a valid one, and fits unless it is the base size.
proof fn lemma_first_fit<S: PageSize>(sizes: Seq<S>, virt: int, phys: int, left: int)
    requires
        valid_sizes::<S>(),
        forall|i: int|
            0 <= i < sizes.len() ==> (#[trigger] sizes[i]).size() >= S::BASE.size()
                && vstd::arithmetic::power2::is_pow2(sizes[i].size() as int),
    ensures
        ({
            let size = first_fit(sizes, virt, phys, left);
            &&& size.size() >= S::BASE.size()
            &&& vstd::arithmetic::power2::is_pow2(size.size() as int)
            &&& size == S::BASE || size_fits(size, virt, phys, left)
        }),
    decreases sizes.len(),
{
    if sizes.len() > 0 && !size_fits(sizes[0], virt, phys, left) {
        let rest = sizes.drop_first();
        assert forall|i: int| 0 <= i < rest.len() implies (#[trigger] rest[i]).size()
            >= S::BASE.size() && vstd::arithmetic::power2::is_pow2(rest[i].size() as int) by {
            assert(rest[i] == sizes[i + 1]);
        }
        lemma_first_fit(rest, virt, phys, left);
    }
}

/// The chosen page is base-sized or fits, and its size is a multiple of the base size.
pub proof fn lemma_page_size<S: PageSize>(virt: int, phys: int, left: int, use_huge_pages: bool)
    requires
        valid_sizes::<S>(),
    ensures
        ({
            let size: S = page_size_for(virt, phys, left, use_huge_pages);
            &&& size.size() >= S::BASE.size()
            &&& size.size() as int % paging::base::<S>() == 0
            &&& vstd::arithmetic::power2::is_pow2(size.size() as int)
            &&& size == S::BASE || size_fits(size, virt, phys, left)
        }),
{
    let size: S = page_size_for(virt, phys, left, use_huge_pages);
    if use_huge_pages {
        lemma_first_fit(S::huge_sizes(), virt, phys, left);
    }
    arith::lemma_powers_divide(paging::base::<S>(), size.size() as int);
}

/// What remains after one page needs the rest of the base pages.
proof fn lemma_rest<S: PageSize>(left: int, size: int)
    requires
        paging::base::<S>() > 0,
        left > 0,
        size > 0,
        size % paging::base::<S>() == 0,
        size == paging::base::<S>() || size <= left,
    ensures
        left - size > 0 ==> arith::ceil_to(left, paging::base::<S>()) == size + arith::ceil_to(
            left - size,
            paging::base::<S>(),
        ),
        left - size <= 0 ==> arith::ceil_to(left, paging::base::<S>()) == size,
        size <= arith::ceil_to(left, paging::base::<S>()),
{
    let b = paging::base::<S>();
    arith::lemma_ceil_facts(left, b);
    arith::lemma_ceil_facts(left - size, b);
    if left - size > 0 {
        arith::lemma_multiples_add(size, arith::ceil_to(left - size, b), b);
        arith::lemma_multiples_apart(
            arith::ceil_to(left, b),
            size + arith::ceil_to(left - size, b),
            b,
        );
    } else {
        arith::lemma_multiples_apart(arith::ceil_to(left, b), size, b);
    }
}

/// A plan maps exactly the addresses of the region, rounded up to base pages, each to the
/// physical address at the same distance.
pub proof fn lemma_plan<S: PageSize>(
    virt: int,
    phys: int,
    left: int,
    flags: PageFlags,
    use_huge_pages: bool,
)
    requires
        valid_sizes::<S>(),
        virt % paging::base::<S>() == 0,
        phys % paging::base::<S>() == 0,
        0 <= virt,
        0 <= phys,
        left > 0 ==> virt + arith::ceil_to(left, paging::base::<S>())
            <= arith::address_space_size(),
        left > 0 ==> phys + arith::ceil_to(left, paging::base::<S>())
            <= arith::address_space_size(),
    ensures
        ({
            let plan = page_plan::<S>(virt, phys, left, flags, use_huge_pages);
            let end = if left > 0 {
                virt + arith::ceil_to(left, paging::base::<S>())
            } else {
                virt
            };
            &&& paging::wf_entries(plan)
            &&& forall|k: u64| #[trigger] plan.contains_key(k) ==> virt <= k < end
            &&& forall|v: int| #[trigger] paging::mapped(plan, v) == (virt <= v < end)
            &&& forall|v: int|
                virt <= v < end ==> #[trigger] paging::phys_at(plan, v) == phys + (v - virt)
            &&& forall|v: int|
                virt <= v < end ==> plan[#[trigger] paging::page_at(plan, v)].flags == flags
        }),
    decreases
            (if left > 0 {
                left
            } else {
                0
            }),
{
    let b = paging::base::<S>();
    let size: S = page_size_for(virt, phys, left, use_huge_pages);
    let s = size.size() as int;
    let plan = page_plan::<S>(virt, phys, left, flags, use_huge_pages);
    if left <= 0 {
        assert forall|v: int| !#[trigger] paging::mapped(plan, v) by {
            if paging::mapped(plan, v) {
                let k = choose|k: u64| paging::covers(plan, k, v);
                assert(plan.contains_key(k));
            }
        }
    } else {
        lemma_page_size::<S>(virt, phys, left, use_huge_pages);
        lemma_rest::<S>(left, s);
        arith::lemma_multiples_add(virt, s, b);
        arith::lemma_multiples_add(phys, s, b);
        lemma_plan::<S>(virt + s, phys + s, left - s, flags, use_huge_pages);
        let rest = page_plan::<S>(virt + s, phys + s, left - s, flags, use_huge_pages);
        let entry = PageEntry { phys: phys as u64, flags, size };
        paging::lemma_add_page(rest, virt as u64, entry);
        let end = virt + arith::ceil_to(left, b);
        assert forall|v: int| virt <= v < end implies #[trigger] paging::phys_at(plan, v) == phys
            + (v - virt) by {
            if v < virt + s {
                assert(paging::page_at(plan, v) == virt);
            } else {
                assert(paging::mapped(rest, v));
                assert(paging::page_at(plan, v) == paging::page_at(rest, v));
                assert(paging::phys_at(rest, v) == phys + s + (v - virt - s));
            }
        }
        assert forall|v: int| virt <= v < end implies plan[#[trigger] paging::page_at(
            plan,
            v,
        )].flags == flags by {
            if v >= virt + s {
                assert(paging::mapped(rest, v));
                assert(paging::page_at(plan, v) == paging::page_at(rest, v));
                assert(paging::covers(rest, paging::page_at(rest, v), v));
            }
        }
    }
}

/// No page of a plan starts before the region, even where the region is not aligned.
proof fn lemma_plan_starts<S: PageSize>(
    virt: int,
    phys: int,
    left: int,
    flags: PageFlags,
    use_huge_pages: bool,
)
    requires
        valid_sizes::<S>(),
        0 <= virt,
        left > 0 ==> virt + arith::floor_to(left - 1, paging::base::<S>()) <= u64::MAX,
    ensures
        forall|k: u64| #[trigger]
            page_plan::<S>(virt, phys, left, flags, use_huge_pages).contains_key(k) ==> virt <= k,
    decreases
            (if left > 0 {
                left
            } else {
                0
            }),
{
    if left > 0 {
        let b = paging::base::<S>();
        let size: S = page_size_for(virt, phys, left, use_huge_pages);
        let s = size.size() as int;
        lemma_page_size::<S>(virt, phys, left, use_huge_pages);
        arith::lemma_floor_facts(left - 1, b);
        if left > s {
            arith::lemma_floor_facts(left - s - 1, b);
            arith::lemma_multiples_add(arith::floor_to(left - s - 1, b), s, b);
            if arith::floor_to(left - s - 1, b) + s > arith::floor_to(left - 1, b) {
                arith::lemma_multiples_apart(
                    arith::floor_to(left - s - 1, b) + s,
                    arith::floor_to(left - 1, b),
                    b,
                );
            }
        }
        lemma_plan_starts::<S>(virt + s, phys + s, left - s, flags, use_huge_pages);
        let rest = page_plan::<S>(virt + s, phys + s, left - s, flags, use_huge_pages);
        let plan = page_plan::<S>(virt, phys, left, flags, use_huge_pages);
        assert forall|k: u64| #[trigger] plan.contains_key(k) implies virt <= k by {
            if k != virt as u64 {
                assert(rest.contains_key(k));
            }
        }
    }
}

/// An offset inside the region is at or before its last base page.
proof fn lemma_last_block(offset: int, size: int, b: int)
    requires
        b > 0,
        0 <= offset < size,
        offset % b == 0,
    ensures
        offset <= arith::floor_to(size - 1, b),
{
    arith::lemma_floor_facts(size - 1, b);
    if offset > arith::floor_to(size - 1, b) {
        arith::lemma_multiples_apart(offset, arith::floor_to(size - 1, b), b);
    }
}

/// Rounding up the whole is rounding up the rest behind whole pages.
proof fn lemma_ceil_offset(size: int, offset: int, b: int)
    requires
        b > 0,
        offset % b == 0,
    ensures
        arith::ceil_to(size, b) == offset + arith::ceil_to(size - offset, b),
{
    arith::lemma_ceil_facts(size, b);
    arith::lemma_ceil_facts(size - offset, b);
    arith::lemma_multiples_add(offset, arith::ceil_to(size - offset, b), b);
    arith::lemma_multiples_apart(
        arith::ceil_to(size, b),
        offset + arith::ceil_to(size - offset, b),
        b,
    );
}

/// A region whose last base page starts inside the address space ends inside it.
proof fn lemma_last_block_fits<S: PageSize>(start: int, size: int)
    requires
        valid_sizes::<S>(),
        size > 0,
        start >= 0,
        start % paging::base::<S>() == 0,
        start + arith::floor_to(size - 1, paging::base::<S>()) <= u64::MAX,
    ensures
        start + arith::ceil_to(size, paging::base::<S>()) <= arith::address_space_size(),
{
    let b = paging::base::<S>();
    arith::lemma_floor_facts(size - 1, b);
    arith::lemma_ceil_facts(size, b);
    let last = arith::floor_to(size - 1, b);
    arith::lemma_multiples_add(start, last, b);
    arith::lemma_aligned_block_fits((start + last) as u64, S::BASE.size());
    vstd::arithmetic::div_mod::lemma_mod_self_0(b);
    arith::lemma_multiples_add(last, b, b);
    arith::lemma_multiples_apart(arith::ceil_to(size, b), last + b, b);
}

/// The size of the page that maps `virt` to `phys` when `left` bytes remain: the largest huge
/// page that fits where huge pages are wanted, or else a base page.
pub fn choose_page_size<S: PageSize>(
    virt: VirtAddr,
    phys: PhysAddr,
    left: u64,
    use_huge_pages: bool,
) -> (r: S)
    ensures
        r == page_size_for::<S>(virt.0 as int, phys.0 as int, left as int, use_huge_pages),
{
    if use_huge_pages {
        let sizes: &'static [S] = S::huge_page_sizes();
        let mut i: usize = 0;
        assert(sizes@.skip(0) =~= sizes@);
        while i < sizes.len()
            invariant
                i <= sizes@.len(),
                use_huge_pages,
                sizes@ == S::huge_sizes(),
                first_fit(sizes@, virt.0 as int, phys.0 as int, left as int) == first_fit(
                    sizes@.skip(i as int),
                    virt.0 as int,
                    phys.0 as int,
                    left as int,
                ),
            decreases sizes@.len() - i,
        {
            let size: S = sizes[i];
            let bytes: u64 = size.bytes();
            proof {
                arith::lemma_powers_divide(bytes as int, bytes as int);
                assert(sizes@.skip(i as int).drop_first() =~= sizes@.skip(i + 1));
            }
            if bytes <= left && virt.is_aligned(bytes) && phys.is_aligned(bytes) {
                return size;
            }
            i = i + 1;
        }
    }
    S::BASE
}

/// Two plans hold the same pages from an address on.
spec fn same_from<S>(
    plan: Map<u64, PageEntry<S>>,
    rest: Map<u64, PageEntry<S>>,
    addr: int,
) -> bool {
    forall|k: u64|
        addr <= k ==> #[trigger] plan.contains_key(k) == rest.contains_key(k) && (
        rest.contains_key(k) ==> plan[k] == rest[k])
}

/// Map the `size` bytes from `virt_start` on to the physical bytes from `phys_start` on.
///
/// The last page may reach past the end of the region. If `use_huge_pages` is true, tries
/// larger page sizes where alignment permits.
pub fn map_region<S: PageSize, P: PageTable<S>, A: FrameAllocator<S>>(
    virt_start: VirtAddr,
    phys_start: PhysAddr,
    size: u64,
    flags: PageFlags,
    use_huge_pages: bool,
    page_table: &mut P,
    allocator: &mut A,
) -> (r: Result<(), LoadError>)
    requires
        paging::wf_entries(old(page_table).entries()),
        arith::ceil_to(size as int, paging::base::<S>()) <= u64::MAX,
        size > 0 ==> virt_start.0 + arith::floor_to(size - 1, paging::base::<S>()) <= u64::MAX,
        size > 0 ==> phys_start.0 + arith::floor_to(size - 1, paging::base::<S>()) <= u64::MAX,
    ensures
        match r {
            Ok(_) => {
                &&& final(page_table).entries() == old(page_table).entries().union_prefer_right(
                    page_plan(
                        virt_start.0 as int,
                        phys_start.0 as int,
                        size as int,
                        flags,
                        use_huge_pages,
                    ),
                )
                &&& size > 0 ==> {
                    &&& virt_start.0 as int % paging::base::<S>() == 0
                    &&& phys_start.0 as int % paging::base::<S>() == 0
                }
                &&& forall|v: int|
                    virt_start.0 <= v < virt_start.0 + arith::ceil_to(
                        size as int,
                        paging::base::<S>(),
                    ) ==> !#[trigger] paging::mapped(old(page_table).entries(), v)
                &&& final(page_table).refusals() == old(page_table).refusals()
                &&& final(allocator).refused() == old(allocator).refused()
            },
            Err(e) => exists|at: u64| #[trigger]
                refused_at(
                    old(page_table).entries(),
                    old(page_table).refusals(),
                    page_plan(
                        virt_start.0 as int,
                        phys_start.0 as int,
                        size as int,
                        flags,
                        use_huge_pages,
                    ),
                    at,
                    final(page_table).entries(),
                    final(page_table).refusals(),
                    e,
                ),
        },
        paging::wf_entries(final(page_table).entries()),
        final(page_table).unmap_refusals() == old(page_table).unmap_refusals(),
        final(page_table).tables() == old(page_table).tables() + traits::added(
            old(page_table).tables(),
            final(page_table).tables(),
        ),
        final(allocator).granted() == old(allocator).granted() + traits::added(
            old(page_table).tables(),
            final(page_table).tables(),
        ),
        final(allocator).available().subset_of(old(allocator).available()),
        valid_sizes::<S>(),
{
    let base_size: u64 = S::BASE.bytes();
    let _sizes: &'static [S] = S::huge_page_sizes();
    let ghost b = paging::base::<S>();
    let ghost virt = virt_start.0 as int;
    let ghost phys = phys_start.0 as int;
    let ghost before = page_table.entries();
    let ghost plan = page_plan::<S>(virt, phys, size as int, flags, use_huge_pages);
    let ghost whole = before.union_prefer_right(plan);
    let ghost total = arith::ceil_to(size as int, b);
    assert(valid_sizes::<S>()) by {
        arith::lemma_powers_divide(base_size as int, base_size as int);
    }
    proof {
        arith::lemma_ceil_facts(size as int, b);
        vstd::arithmetic::div_mod::lemma_small_mod(0, b as nat);
        lemma_plan_starts::<S>(virt, phys, size as int, flags, use_huge_pages);
        assert(before =~= before.union_prefer_right(physical::below(plan, virt)));
    }
    assert(traits::added(page_table.tables(), page_table.tables()) =~= Seq::empty());
    assert(page_table.tables() + Seq::empty() =~= page_table.tables());
    assert(allocator.granted() + Seq::empty() =~= allocator.granted());
    let mut offset: u64 = 0;
    while offset < size
        invariant
            b == base_size,
            b == paging::base::<S>(),
            base_size > 0,
            valid_sizes::<S>(),
            virt == virt_start.0,
            phys == phys_start.0,
            before == old(page_table).entries(),
            total == arith::ceil_to(size as int, b),
            total <= u64::MAX,
            size > 0 ==> virt + arith::floor_to(size - 1, b) <= u64::MAX,
            size > 0 ==> phys + arith::floor_to(size - 1, b) <= u64::MAX,
            offset <= total,
            offset as int % b == 0,
            offset > 0 ==> virt % b == 0 && phys % b == 0,
            paging::wf_entries(before),
            paging::wf_entries(page_table.entries()),
            plan == page_plan::<S>(virt, phys, size as int, flags, use_huge_pages),
            whole == before.union_prefer_right(plan),
            forall|k: u64| #[trigger] plan.contains_key(k) ==> virt <= k,
            page_table.entries().union_prefer_right(
                page_plan::<S>(
                    virt + offset,
                    phys + offset,
                    size - offset,
                    flags,
                    use_huge_pages,
                ),
            ) == whole,
            same_from(
                plan,
                page_plan::<S>(
                    virt + offset,
                    phys + offset,
                    size - offset,
                    flags,
                    use_huge_pages,
                ),
                virt + offset,
            ),
            page_table.entries() == before.union_prefer_right(
                physical::below(plan, virt + offset),
            ),
            forall|v: int|
                virt <= v < virt + offset ==> !#[trigger] paging::mapped(before, v),
            page_table.refusals() == old(page_table).refusals(),
            page_table.unmap_refusals() == old(page_table).unmap_refusals(),
            page_table.tables() == old(page_table).tables() + traits::added(
                old(page_table).tables(),
                page_table.tables(),
            ),
            allocator.granted() == old(allocator).granted() + traits::added(
                old(page_table).tables(),
                page_table.tables(),
            ),
            allocator.refused() == old(allocator).refused(),
            allocator.available().subset_of(old(allocator).available()),
        decreases total - offset,
    {
        proof {
            arith::lemma_ceil_facts(size as int, b);
            arith::lemma_floor_facts(size - 1, b);
            lemma_last_block(offset as int, size as int, b);
        }
        let virt_now = VirtAddr::new(virt_start.as_u64() + offset);
        let phys_now = PhysAddr::new(phys_start.as_u64() + offset);
        let remaining: u64 = size - offset;
        let page: S = choose_page_size(virt_now, phys_now, remaining, use_huge_pages);
        let page_bytes: u64 = page.bytes();
        let ghost entries = page_table.entries();
        let ghost tables = page_table.tables();
        proof {
            lemma_page_size::<S>(virt + offset, phys + offset, size - offset, use_huge_pages);
            lemma_rest::<S>(size - offset, page_bytes as int);
            lemma_ceil_offset(size as int, offset as int, b);
        }
        let mapped = page_table.map(virt_now, phys_now, page, flags, allocator);
        proof {
            traits::lemma_added_chain(
                old(page_table).tables(),
                tables,
                page_table.tables(),
                old(allocator).granted(),
            );
        }
        match mapped {
            Ok(_) => {},
            Err(e) => {
                proof {
                    assert(plan.contains_key(virt_now.0));
                    assert(refused_at(
                        before,
                        old(page_table).refusals(),
                        plan,
                        virt_now.0,
                        page_table.entries(),
                        page_table.refusals(),
                        LoadError::MappingFailed(e),
                    ));
                }
                return Err(LoadError::MappingFailed(e));
            },
        }
        proof {
            let k = virt_now.0;
            let entry = PageEntry { phys: phys_now.0, flags, size: page };
            arith::lemma_aligned_block_fits(virt_now.0, page_bytes);
            arith::lemma_aligned_block_fits(phys_now.0, page_bytes);
            arith::lemma_multiples_chain(virt_now.0 as int, page_bytes as int, b);
            arith::lemma_multiples_chain(phys_now.0 as int, page_bytes as int, b);
            arith::lemma_multiples_add(virt_now.0 as int, offset as int, b);
            arith::lemma_multiples_add(phys_now.0 as int, offset as int, b);
            arith::lemma_multiples_add(offset as int, page_bytes as int, b);
            assert(paging::wf_entry(k, entry));
            paging::lemma_add_page(entries, k, entry);
            let rest = page_plan::<S>(
                virt + offset + page_bytes,
                phys + offset + page_bytes,
                size - offset - page_bytes,
                flags,
                use_huge_pages,
            );
            assert(page_plan::<S>(
                virt + offset,
                phys + offset,
                size - offset,
                flags,
                use_huge_pages,
            ) == rest.insert(k, entry));
            assert(virt + total <= arith::address_space_size() && phys + total
                <= arith::address_space_size()) by {
                lemma_last_block_fits::<S>(virt, size as int);
                lemma_last_block_fits::<S>(phys, size as int);
            }
            arith::lemma_multiples_add(virt_now.0 as int, page_bytes as int, b);
            arith::lemma_multiples_add(phys_now.0 as int, page_bytes as int, b);
            lemma_plan::<S>(
                virt + offset + page_bytes,
                phys + offset + page_bytes,
                size - offset - page_bytes,
                flags,
                use_huge_pages,
            );
            assert(!rest.contains_key(k));
            assert(entries.insert(k, entry).union_prefer_right(rest)
                =~= entries.union_prefer_right(rest.insert(k, entry)));
            assert(same_from(plan, rest, virt + offset + page_bytes)) by {
                assert forall|j: u64| virt + offset + page_bytes <= j implies
                    #[trigger] plan.contains_key(j) == rest.contains_key(j) && (rest.contains_key(j)
                    ==> plan[j] == rest[j]) by {
                    assert(rest.insert(k, entry).contains_key(j) == rest.contains_key(j));
                }
            }
            assert(entries.insert(k, entry) =~= before.union_prefer_right(
                physical::below(plan, virt + offset + page_bytes),
            )) by {
                assert(same_from(plan, rest.insert(k, entry), virt + offset));
                assert(plan.contains_key(k));
                assert(rest.insert(k, entry)[k] == entry);
                assert(plan[k] == entry);
                assert forall|j: u64| #[trigger] plan.contains_key(j) && virt + offset <= j < virt
                    + offset + page_bytes implies j == k by {
                    assert(rest.insert(k, entry).contains_key(j));
                }
            }
            assert forall|v: int| virt <= v < virt + offset + page_bytes implies !#[trigger]
                paging::mapped(before, v) by {
                if v >= virt + offset && paging::mapped(before, v) {
                    let j = choose|j: u64| paging::covers(before, j, v);
                    assert(before.contains_key(j));
                    assert(entries.contains_key(j));
                    if physical::below(plan, virt + offset).contains_key(j) {
                        assert(paging::wf_entry(j, before[j]));
                        assert(paging::covers(before, j, j as int));
                        assert(paging::mapped(before, j as int));
                        assert(virt <= j < virt + offset);
                    }
                    assert(paging::covers(entries, j, v));
                    assert(paging::mapped(entries, v));
                }
            }
        }
        offset = offset + page_bytes;
    }
    proof {
        assert(page_plan::<S>(
            virt + offset,
            phys + offset,
            size - offset,
            flags,
            use_huge_pages,
        ) =~= Map::<u64, PageEntry<S>>::empty());
        assert(page_table.entries() =~= whole);
        if size > 0 {
            arith::lemma_multiples_apart(offset as int, total, b);
        }
    }
    Ok(())
}

} // verus!
