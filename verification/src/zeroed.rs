//! Mapping fresh zeroed frames.

use crate::arith;
use crate::error::LoadError;
use crate::paging;
use crate::paging::PageEntry;
use crate::physical;
use crate::physical::{Answer, MapRefusal, Physical, Run};
use crate::state;
use crate::state::Snapshot;
use crate::traits::{
    FrameAllocator, PageFlags, PageSize, PageTable, PhysAddr, PhysicalMemoryAccess, VirtAddr,
};
use vstd::prelude::*;

verus! {

/// Mapping zeroed pages from `lo` up to `hi`, one after the other.
pub open spec fn zeroed_run<S: PageSize>(
    lo: int,
    hi: int,
    flags: PageFlags,
) -> spec_fn(Physical<S>) -> Run<Physical<S>> {
    |memory: Physical<S>| memory.with_zeroed_pages(lo, hi, flags)
}

/// Between the two states the addresses from `lo` to `hi` were mapped to fresh zeroed base
/// frames, no two addresses to the same byte, and no other mapping changed.
pub open spec fn freshly_mapped<S: PageSize>(
    before: Snapshot<S>,
    after: Snapshot<S>,
    lo: int,
    hi: int,
    flags: PageFlags,
) -> bool {
    &&& paging::wf_entries(after.entries)
    &&& forall|v: int| lo <= v < hi ==> !#[trigger] paging::mapped(before.entries, v)
    &&& forall|v: int| #[trigger]
        paging::mapped(after.entries, v) == (paging::mapped(before.entries, v) || lo <= v < hi)
    &&& forall|k: u64| #[trigger]
        before.entries.contains_key(k) ==> after.entries.contains_key(k) && after.entries[k]
            == before.entries[k]
    &&& forall|v: int|
        lo <= v < hi ==> {
            let page = #[trigger] paging::page_at(after.entries, v);
            &&& after.entries[page].flags == flags
            &&& after.entries[page].size == S::BASE
        }
    &&& forall|v: int|
        lo <= v < hi ==> {
            let addr = #[trigger] paging::phys_at(after.entries, v);
            &&& after.memory[addr] == 0
            &&& before.available.contains(addr)
            &&& !after.available.contains(addr)
        }
    &&& forall|u: int, v: int|
        lo <= u < v < hi ==> #[trigger] paging::phys_at(after.entries, u)
            != #[trigger] paging::phys_at(after.entries, v)
    &&& paging::unshared(before.entries, before.available) ==> {
        &&& paging::unshared(after.entries, after.available)
        &&& after.vm() == before.vm().union_prefer_right(paging::zero_cells(lo, hi, flags))
    }
}

/// One more zeroed page behind a range of them.
proof fn lemma_one_more<S: PageSize>(
    before: Snapshot<S>,
    now: Snapshot<S>,
    after: Snapshot<S>,
    lo: int,
    page: u64,
    frame: u64,
    flags: PageFlags,
)
    requires
        freshly_mapped(before, now, lo, page as int, flags),
        lo <= page,
        now.available.subset_of(before.available),
        paging::taken(now.available, after.available, frame, paging::base::<S>()),
        paging::wf_entry(page, PageEntry { phys: frame, flags, size: S::BASE }),
        forall|v: int|
            page <= v < page + paging::base::<S>() ==> !#[trigger] paging::mapped(now.entries, v),
        after.entries == now.entries.insert(
            page,
            PageEntry { phys: frame, flags, size: S::BASE },
        ),
        after.memory == paging::stored(
            now.memory,
            frame as int,
            paging::zeros(paging::base::<S>() as nat),
        ),
    ensures
        freshly_mapped(before, after, lo, page + paging::base::<S>(), flags),
{
    let b = paging::base::<S>();
    let entry = PageEntry { phys: frame, flags, size: S::BASE };
    let hi = page + b;
    paging::lemma_add_page(now.entries, page, entry);
    assert forall|v: int| lo <= v < hi implies !#[trigger] paging::mapped(before.entries, v) by {
        if v >= page {
            assert(!paging::mapped(now.entries, v));
        }
    }
    assert forall|v: int| #[trigger] paging::mapped(after.entries, v) == (paging::mapped(
        before.entries,
        v,
    ) || lo <= v < hi) by {
        assert(paging::mapped(now.entries, v) == (paging::mapped(before.entries, v) || lo <= v
            < page));
    }
    assert forall|v: int| lo <= v < page implies paging::mapped(now.entries, v)
        && #[trigger] paging::page_at(after.entries, v) == paging::page_at(now.entries, v)
        && paging::phys_at(after.entries, v) == paging::phys_at(now.entries, v) by {
        assert(paging::mapped(now.entries, v));
    }
    assert forall|v: int| page <= v < hi implies #[trigger] paging::page_at(after.entries, v)
        == page && paging::phys_at(after.entries, v) == frame + (v - page) by {}
    assert forall|v: int| lo <= v < hi implies after.memory[#[trigger] paging::phys_at(
        after.entries,
        v,
    )] == 0 && before.available.contains(paging::phys_at(after.entries, v))
        && !after.available.contains(paging::phys_at(after.entries, v)) by {
        if v < page {
            assert(paging::page_at(after.entries, v) == paging::page_at(now.entries, v));
            assert(now.memory[paging::phys_at(now.entries, v)] == 0);
        } else {
            assert(paging::page_at(after.entries, v) == page);
            assert(now.available.contains(frame + (v - page)));
        }
    }
    assert forall|v: int| lo <= v < hi implies ({
        let at = #[trigger] paging::page_at(after.entries, v);
        after.entries[at].flags == flags && after.entries[at].size == S::BASE
    }) by {
        if v < page {
            let at = paging::page_at(now.entries, v);
            assert(paging::page_at(after.entries, v) == at);
            assert(paging::covers(now.entries, at, v));
        }
    }
    assert forall|u: int, v: int| lo <= u < v < hi implies #[trigger] paging::phys_at(
        after.entries,
        u,
    ) != #[trigger] paging::phys_at(after.entries, v) by {
        if v < page {
            assert(paging::page_at(after.entries, u) == paging::page_at(now.entries, u));
            assert(paging::page_at(after.entries, v) == paging::page_at(now.entries, v));
            assert(paging::phys_at(now.entries, u) != paging::phys_at(now.entries, v));
        } else {
            assert(paging::page_at(after.entries, v) == page);
            assert(now.available.contains(frame + (v - page)));
            if u < page {
                assert(paging::page_at(after.entries, u) == paging::page_at(now.entries, u));
                assert(!now.available.contains(paging::phys_at(now.entries, u)));
            } else {
                assert(paging::page_at(after.entries, u) == page);
            }
        }
    }
    if paging::unshared(before.entries, before.available) {
        paging::lemma_zero_page(
            now.entries,
            now.memory,
            page,
            frame,
            flags,
            now.available,
            after.available,
        );
        assert(after.vm() =~= before.vm().union_prefer_right(paging::zero_cells(lo, hi, flags)));
    }
}

/// One more page keeps the run going, or ends it.
proof fn lemma_page_step<S: PageSize>(
    before: Snapshot<S>,
    now: Snapshot<S>,
    next: Snapshot<S>,
    lo: int,
    page: u64,
    end: int,
    flags: PageFlags,
    answer: Answer<S>,
    r: Result<(), LoadError>,
)
    requires
        paging::base::<S>() > 0,
        page < end,
        physical::still_tracks(
            zeroed_run(lo, end, flags),
            zeroed_run(page as int, end, flags),
            before,
            Seq::empty(),
            now,
            Seq::empty(),
        ),
        next.available.subset_of(now.available),
        forall|a: int| #[trigger]
            physical::in_frame(answer, a) ==> now.available.contains(a)
                && !next.available.contains(a),
        forall|answers: Seq<Answer<S>>|
            answers.len() > 0 && answers[0] == answer ==> (#[trigger] physical::at(
                now,
                Seq::empty(),
                answers,
            )).with_zeroed_page(page, flags) == physical::ended(
                next,
                Seq::empty(),
                answers.skip(1),
                r,
            ),
    ensures
        r is Ok ==> physical::still_tracks(
            zeroed_run(lo, end, flags),
            zeroed_run(page + paging::base::<S>(), end, flags),
            before,
            Seq::empty(),
            next,
            Seq::empty(),
        ),
        r is Err ==> physical::tracks(
            zeroed_run(lo, end, flags),
            before,
            Seq::empty(),
            next,
            Seq::empty(),
            r,
        ),
{
    let step = |memory: Physical<S>| memory.with_zeroed_page(page, flags);
    physical::lemma_one_answer(step, now, Seq::empty(), answer, next, Seq::empty(), r);
    physical::lemma_tracks_step(
        zeroed_run(lo, end, flags),
        zeroed_run(page as int, end, flags),
        before,
        Seq::empty(),
        now,
        Seq::empty(),
        step,
        zeroed_run(page + paging::base::<S>(), end, flags),
        next,
        Seq::empty(),
        r,
    );
}

/// Allocate `num_pages` frames, zero them and map them one after the other from `virt_start` on.
pub fn map_zeroed_pages<
    S: PageSize,
    P: PageTable<S>,
    A: FrameAllocator<S>,
    M: PhysicalMemoryAccess,
>(
    virt_start: VirtAddr,
    num_pages: u64,
    flags: PageFlags,
    page_table: &mut P,
    allocator: &mut A,
    phys_mem: &mut M,
) -> (r: Result<(), LoadError>)
    requires
        paging::wf_entries(old(page_table).entries()),
        num_pages > 0 ==> virt_start.0 + (num_pages - 1) * paging::base::<S>() <= u64::MAX,
    ensures
        ({
            let before = state::snapshot(*old(page_table), *old(allocator), *old(phys_mem));
            let after = state::snapshot(*final(page_table), *final(allocator), *final(phys_mem));
            let end = virt_start.0 + num_pages * paging::base::<S>();
            &&& before.kept(Seq::empty(), after)
            &&& after.available.subset_of(before.available)
            &&& match r {
                Ok(_) => {
                    &&& before.quiet(after)
                    &&& num_pages > 0 ==> virt_start.0 as int % paging::base::<S>() == 0
                    &&& freshly_mapped(before, after, virt_start.0 as int, end, flags)
                },
                Err(e) => {
                    &&& before.refused_by(after, e)
                    &&& e !is InvalidElf
                    &&& paging::wf_entries(after.entries)
                    &&& paging::unshared(before.entries, before.available) ==> paging::unshared(
                        after.entries,
                        after.available,
                    )
                },
            }
            &&& physical::tracks(
                zeroed_run(virt_start.0 as int, end, flags),
                before,
                Seq::empty(),
                after,
                Seq::empty(),
                r,
            )
        }),
{
    let ghost before = state::snapshot(*page_table, *allocator, *phys_mem);
    let base_size: u64 = S::BASE.bytes();
    let ghost b = paging::base::<S>();
    let ghost lo = virt_start.0 as int;
    proof {
        arith::lemma_powers_divide(b, b);
        state::lemma_owned_without_copies(before);
        assert(before.vm() =~= before.vm().union_prefer_right(
            paging::zero_cells(lo, lo, flags),
        ));
    }
    let ghost none = Seq::<u64>::empty();
    let ghost end = lo + num_pages * b;
    proof {
        physical::lemma_idle(before, none);
    }
    let mut i: u64 = 0;
    while i < num_pages
        invariant
            i <= num_pages,
            b == base_size,
            b == paging::base::<S>(),
            b > 0,
            vstd::arithmetic::power2::is_pow2(b),
            lo == virt_start.0,
            num_pages > 0 ==> lo + (num_pages - 1) * b <= u64::MAX,
            before == state::snapshot(*old(page_table), *old(allocator), *old(phys_mem)),
            before.owned(Seq::empty()) == before.available,
            forall|a: int|
                !before.available.contains(a) ==> #[trigger] phys_mem.memory()[a]
                    == before.memory[a],
            before.quiet(state::snapshot(*page_table, *allocator, *phys_mem)),
            state::snapshot(*page_table, *allocator, *phys_mem).available.subset_of(
                before.available,
            ),
            i > 0 ==> lo % b == 0,
            none == Seq::<u64>::empty(),
            end == lo + num_pages * b,
            physical::still_tracks(
                zeroed_run(lo, end, flags),
                zeroed_run(lo + i * b, end, flags),
                before,
                none,
                state::snapshot(*page_table, *allocator, *phys_mem),
                none,
            ),
            freshly_mapped(
                before,
                state::snapshot(*page_table, *allocator, *phys_mem),
                lo,
                lo + i * b,
                flags,
            ),
        decreases num_pages - i,
    {
        let ghost now = state::snapshot(*page_table, *allocator, *phys_mem);
        proof {
            assert(0 <= i * b && i * b <= (num_pages - 1) * b && (i + 1) * b == i * b + b && i * b
                < num_pages * b) by (nonlinear_arith)
                requires
                    0 <= i <= num_pages - 1,
                    b > 0,
            ;
        }
        let page: u64 = virt_start.as_u64() + i * base_size;
        let frame: PhysAddr = match allocator.allocate_frame(S::BASE) {
            Some(frame) => frame,
            None => {
                proof {
                    let after = state::snapshot(*page_table, *allocator, *phys_mem);
                    let answer = physical::reply(now, after, None, None, None);
                    let r = Err(LoadError::FrameAllocationFailed);
                    lemma_page_step(before, now, after, lo, page, end, flags, answer, r);
                }
                return Err(LoadError::FrameAllocationFailed);
            },
        };
        // Zero the frame.
        phys_mem.zero_phys(frame, base_size);
        assert forall|a: int| !before.available.contains(a) implies
            #[trigger] phys_mem.memory()[a] == before.memory[a] by {
            assert(now.memory[a] == before.memory[a]);
            assert(!now.available.contains(a));
        }
        match page_table.map(VirtAddr::new(page), frame, S::BASE, flags, allocator) {
            Ok(_) => {},
            Err(e) => {
                proof {
                    let after = state::snapshot(*page_table, *allocator, *phys_mem);
                    let refusal = MapRefusal { at: page, reason: e, refused: after.refused };
                    let answer = physical::reply(now, after, Some(frame.0), None, Some(refusal));
                    let r = Err(LoadError::MappingFailed(e));
                    lemma_page_step(before, now, after, lo, page, end, flags, answer, r);
                }
                return Err(LoadError::MappingFailed(e));
            },
        }
        proof {
            let next = state::snapshot(*page_table, *allocator, *phys_mem);
            arith::lemma_aligned_block_fits(frame.0, base_size);
            arith::lemma_aligned_block_fits(page, base_size);
            vstd::arithmetic::div_mod::lemma_mod_self_0(b);
            vstd::arithmetic::div_mod::lemma_mod_multiples_vanish(i as int, lo, b);
            assert(b * i == i * b) by (nonlinear_arith);
            lemma_one_more(before, now, next, lo, page, frame.0, flags);
            let answer = physical::reply(now, next, Some(frame.0), None, None);
            lemma_page_step(before, now, next, lo, page, end, flags, answer, Ok(()));
        }
        i = i + 1;
    }
    proof {
        let after = state::snapshot(*page_table, *allocator, *phys_mem);
        physical::lemma_tracks_end(
            zeroed_run(lo, end, flags),
            zeroed_run(lo + i * b, end, flags),
            before,
            none,
            after,
            none,
            after,
            none,
            Ok(()),
        );
    }
    Ok(())
}

} // verus!
