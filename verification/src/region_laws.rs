//! What placing and mapping a region promises.

use crate::address_space;
use crate::arith;
use crate::loader;
use crate::loader::RegionPlacement;
use crate::mapping;
use crate::paging;
use crate::state::Snapshot;
use crate::traits::{PageFlags, PageSize, VirtAddr};
use vstd::prelude::*;

verus! {

/// Where a region goes, and which addresses are used afterwards: those that were used before and
/// those of the region, and no others. A fixed region goes where it is fixed. Any other goes to an
/// aligned free place, if there is one: to the lowest without a random word, and otherwise to the
/// place that the word picks.
pub proof fn lemma_region_is_placed(
    regions: Seq<(u64, u64)>,
    size: u64,
    alignment: u64,
    placement: RegionPlacement,
    rng: Option<u64>,
)
    requires
        address_space::canonical(regions),
        regions.len() > 0,
        size > 0,
        vstd::arithmetic::power2::is_pow2(alignment as int),
    ensures
        match placement {
            RegionPlacement::Fixed(addr) => loader::placed(
                regions,
                size,
                alignment,
                placement,
                rng,
            ) matches Some((virt, _)) && virt == addr,
            RegionPlacement::Auto => match loader::placed(
                regions,
                size,
                alignment,
                placement,
                rng,
            ) {
                Some((virt, _)) => {
                    &&& address_space::is_place(regions, size, alignment, virt.0 as int)
                    &&& rng is None ==> address_space::is_lowest_place(
                        regions,
                        size,
                        alignment,
                        virt.0 as int,
                    )
                    &&& address_space::free_address(regions, size, alignment, rng) == Some(
                        virt.0 as int,
                    )
                },
                None => forall|p: int|
                    !#[trigger] address_space::is_place(regions, size, alignment, p),
            },
        },
        loader::placed(regions, size, alignment, placement, rng) matches Some((virt, after)) ==> {
            &&& address_space::canonical(after)
            &&& forall|v: int| #[trigger]
                address_space::used(after).contains(v) <==> address_space::used(regions).contains(v)
                    || (virt.0 <= v < virt.0 + size && v < u64::MAX)
        },
{
    if placement is Auto {
        address_space::lemma_search_fails_without_place(regions, size, alignment, rng);
        if let Some(addr) = address_space::free_address(regions, size, alignment, rng) {
            address_space::lemma_found_is_free(regions, size, alignment, rng);
            let some = choose|p: int| #[trigger]
                address_space::is_place(regions, size, alignment, p);
            address_space::lemma_random_choice_goes_round(
                regions,
                size,
                alignment,
                match rng {
                    Some(word) => word,
                    None => 0,
                },
                some,
            );
        }
    }
    if let Some((virt, _)) = loader::placed(regions, size, alignment, placement, rng) {
        address_space::lemma_marked(regions, virt.0, size);
    }
}

/// A region takes up whole pages, and no page more than it needs.
pub proof fn lemma_whole_pages<S: PageSize>(size: u64)
    requires
        paging::base::<S>() > 0,
        size + paging::base::<S>() - 1 <= u64::MAX,
    ensures
        size <= loader::page_aligned::<S>(size) < size + paging::base::<S>(),
        loader::page_aligned::<S>(size) as int % paging::base::<S>() == 0,
{
    arith::lemma_ceil_facts(size as int, paging::base::<S>());
}

/// The huge page sizes of a platform are listed from the largest to the smallest.
pub open spec fn sizes_descend<S: PageSize>(sizes: Seq<S>) -> bool {
    forall|i: int, j: int|
        0 <= i <= j < sizes.len() ==> (#[trigger] sizes[i]).size() >= (#[trigger] sizes[j]).size()
}

/// A page of `size` bytes can start here: both addresses are multiples of its size, and it does
/// not run over the end.
pub open spec fn page_fits(size: u64, virt: int, phys: int, left: int) -> bool {
    &&& virt % (size as int) == 0
    &&& phys % (size as int) == 0
    &&& size <= left
}

/// Of sizes that are listed from the largest on, the first that fits is the largest that fits.
proof fn lemma_first_is_largest<S: PageSize>(sizes: Seq<S>, virt: int, phys: int, left: int)
    requires
        sizes_descend(sizes),
    ensures
        ({
            let size = mapping::first_fit(sizes, virt, phys, left);
            &&& size == S::BASE || (exists|i: int|
                0 <= i < sizes.len() && size == #[trigger] sizes[i] && page_fits(
                    size.size(),
                    virt,
                    phys,
                    left,
                ))
            &&& forall|i: int|
                0 <= i < sizes.len() && page_fits(
                    (#[trigger] sizes[i]).size(),
                    virt,
                    phys,
                    left,
                ) ==> size.size() >= sizes[i].size()
        }),
    decreases sizes.len(),
{
    if sizes.len() > 0 {
        if mapping::size_fits(sizes[0], virt, phys, left) {
            assert forall|i: int| 0 <= i < sizes.len() implies sizes[0].size() >= (
            #[trigger] sizes[i]).size() by {
                assert(sizes[0].size() >= sizes[i].size());
            }
        } else {
            let rest = sizes.drop_first();
            assert forall|i: int, j: int| 0 <= i <= j < rest.len() implies (
            #[trigger] rest[i]).size() >= (#[trigger] rest[j]).size() by {
                assert(sizes[i + 1].size() >= sizes[j + 1].size());
            }
            lemma_first_is_largest(rest, virt, phys, left);
            let size = mapping::first_fit(rest, virt, phys, left);
            assert forall|i: int|
                0 <= i < sizes.len() && page_fits(
                    (#[trigger] sizes[i]).size(),
                    virt,
                    phys,
                    left,
                ) implies size.size() >= sizes[i].size() by {
                if i > 0 {
                    assert(rest[i - 1] == sizes[i]);
                }
            }
            if size != S::BASE {
                let i = choose|i: int|
                    0 <= i < rest.len() && size == #[trigger] rest[i] && page_fits(
                        size.size(),
                        virt,
                        phys,
                        left,
                    );
                assert(size == sizes[i + 1]);
            }
        }
    }
}

/// The page that is chosen is the largest that fits, or of the base size. Without huge pages it is
/// of the base size.
pub proof fn lemma_largest_page<S: PageSize>(virt: int, phys: int, left: int, use_huge_pages: bool)
    requires
        sizes_descend(S::huge_sizes()),
    ensures
        ({
            let size: S = mapping::page_size_for(virt, phys, left, use_huge_pages);
            &&& !use_huge_pages ==> size == S::BASE
            &&& size == S::BASE || page_fits(size.size(), virt, phys, left)
            &&& use_huge_pages ==> forall|i: int|
                0 <= i < S::huge_sizes().len() && page_fits(
                    (#[trigger] S::huge_sizes()[i]).size(),
                    virt,
                    phys,
                    left,
                ) ==> size.size() >= S::huge_sizes()[i].size()
        }),
{
    if use_huge_pages {
        lemma_first_is_largest(S::huge_sizes(), virt, phys, left);
    }
}

/// A page of a mapped region: it shows the physical region at the same distance from its start,
/// and it is the largest that fits there, or of the base size.
pub open spec fn page_of_region<S: PageSize>(
    k: u64,
    entry: paging::PageEntry<S>,
    virt: int,
    phys: int,
    left: int,
    flags: PageFlags,
    use_huge_pages: bool,
) -> bool {
    &&& virt <= k < virt + left
    &&& entry.phys == phys + (k - virt)
    &&& entry.flags == flags
    &&& !use_huge_pages ==> entry.size == S::BASE
    &&& entry.size == S::BASE || page_fits(
        entry.size.size(),
        k as int,
        entry.phys as int,
        virt + left - k,
    )
    &&& use_huge_pages ==> forall|i: int|
        0 <= i < S::huge_sizes().len() && page_fits(
            (#[trigger] S::huge_sizes()[i]).size(),
            k as int,
            entry.phys as int,
            virt + left - k,
        ) ==> entry.size.size() >= S::huge_sizes()[i].size()
}

/// A region is mapped with pages that are as large as its alignment permits.
pub proof fn lemma_few_pages<S: PageSize>(
    virt: int,
    phys: int,
    left: int,
    flags: PageFlags,
    use_huge_pages: bool,
)
    requires
        sizes_descend(S::huge_sizes()),
        0 <= virt,
        0 <= phys,
        virt + left <= u64::MAX,
        phys + left <= u64::MAX,
    ensures
        forall|k: u64|
            mapping::page_plan::<S>(virt, phys, left, flags, use_huge_pages).contains_key(k)
                ==> #[trigger] page_of_region(
                k,
                mapping::page_plan::<S>(virt, phys, left, flags, use_huge_pages)[k],
                virt,
                phys,
                left,
                flags,
                use_huge_pages,
            ),
    decreases
            (if left > 0 {
                left
            } else {
                0
            }),
{
    let size: S = mapping::page_size_for(virt, phys, left, use_huge_pages);
    if left > 0 && size.size() > 0 {
        let s = size.size() as int;
        lemma_largest_page::<S>(virt, phys, left, use_huge_pages);
        let plan = mapping::page_plan::<S>(virt, phys, left, flags, use_huge_pages);
        let rest = mapping::page_plan::<S>(
            virt + s,
            phys + s,
            left - s,
            flags,
            use_huge_pages,
        );
        lemma_few_pages::<S>(virt + s, phys + s, left - s, flags, use_huge_pages);
        assert forall|k: u64| plan.contains_key(k) implies #[trigger] page_of_region(
            k,
            plan[k],
            virt,
            phys,
            left,
            flags,
            use_huge_pages,
        ) by {
            if k != virt {
                assert(rest.contains_key(k));
                assert(page_of_region(
                    k,
                    rest[k],
                    virt + s,
                    phys + s,
                    left - s,
                    flags,
                    use_huge_pages,
                ));
            }
        }
    }
}

/// Memory that is allocated is all there: zeroed, with the flags that were asked for, and on
/// frames that were free before. No two addresses lead to the same byte, and what was mapped
/// before stays as it was.
pub proof fn lemma_memory_is_seen<S: PageSize>(
    before: Snapshot<S>,
    virt: VirtAddr,
    size: u64,
    flags: PageFlags,
    after: Snapshot<S>,
)
    requires
        loader::memory_mapped(before, virt, size, flags, after, Ok(virt)),
        before.sound(Seq::empty()),
    ensures
        after.sound(Seq::empty()),
        forall|v: int|
            virt.0 <= v < virt.0 + size ==> {
                &&& #[trigger] after.vm().contains_key(v)
                &&& after.vm()[v].byte == 0
                &&& after.vm()[v].flags == flags
                &&& !before.vm().contains_key(v)
                &&& before.available.contains(paging::phys_at(after.entries, v))
                &&& !after.available.contains(paging::phys_at(after.entries, v))
            },
        forall|u: int, v: int|
            virt.0 <= u < v < virt.0 + size ==> #[trigger] paging::phys_at(after.entries, u)
                != #[trigger] paging::phys_at(after.entries, v),
        forall|v: int| #[trigger]
            before.vm().contains_key(v) ==> after.vm().contains_key(v) && after.vm()[v]
                == before.vm()[v],
{
    let b = paging::base::<S>();
    arith::lemma_ceil_facts(size as int, b);
    let end = virt.0 + arith::ceil_to(size as int, b);
    let cells = paging::zero_cells::<S>(virt.0 as int, end, flags);
    assert(after.vm() == before.vm().union_prefer_right(cells));
    assert forall|v: int| virt.0 <= v < virt.0 + size implies {
        &&& #[trigger] after.vm().contains_key(v)
        &&& after.vm()[v].byte == 0
        &&& after.vm()[v].flags == flags
        &&& !before.vm().contains_key(v)
        &&& before.available.contains(paging::phys_at(after.entries, v))
        &&& !after.available.contains(paging::phys_at(after.entries, v))
    } by {
        assert(cells.contains_key(v));
        assert(!paging::mapped(before.entries, v));
    }
    assert forall|v: int| #[trigger] before.vm().contains_key(v) implies after.vm().contains_key(
        v,
    ) && after.vm()[v] == before.vm()[v] by {
        assert(paging::mapped(before.entries, v));
        assert(!cells.contains_key(v));
    }
}

} // verus!
