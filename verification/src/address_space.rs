//! Virtual address space tracking for the kernel.
//!
//! Maintains a sorted list of used virtual address regions and provides
//! methods to find free regions with optional ASLR randomization.

use crate::arith;
use crate::traits::VirtAddr;
use vstd::prelude::*;

verus! {

/// How many separate regions can be tracked.
pub const MAX_REGIONS: usize = 128;

/// One more than `MAX_REGIONS`: the number of gaps around that many regions.
const MAX_GAPS: usize = 129;

/// The end of the addresses behind the last region that are handed out. A little below the
/// end of the address space.
pub const ADDRESS_LIMIT: u64 = 0xFFFF_FFFF_FFFF_0000;

/// A region `(start, end)` holds the addresses from `start` up to, but not including, `end`.
/// Only at the very end of the address space can it be empty.
pub open spec fn proper(start: u64, end: u64) -> bool {
    start < end || (start == end && end == u64::MAX)
}

/// Regions in ascending order that neither overlap nor touch.
pub open spec fn canonical(regions: Seq<(u64, u64)>) -> bool {
    &&& forall|i: int|
        0 <= i < regions.len() ==> proper((#[trigger] regions[i]).0, regions[i].1)
    &&& forall|i: int, j: int|
        0 <= i < j < regions.len() ==> (#[trigger] regions[i]).1 < (#[trigger] regions[j]).0
}

/// The addresses that a list of regions holds.
pub open spec fn used(regions: Seq<(u64, u64)>) -> Set<int> {
    Set::new(
        |v: int|
            exists|i: int| 0 <= i < regions.len() && (#[trigger] regions[i]).0 <= v < regions[i].1,
    )
}

/// How many regions end before `addr`.
pub open spec fn ending_before(regions: Seq<(u64, u64)>, addr: u64) -> int
    decreases regions.len(),
{
    if regions.len() == 0 {
        0
    } else {
        ending_before(regions.drop_last(), addr) + if regions.last().1 < addr {
            1int
        } else {
            0
        }
    }
}

/// How many regions start at `addr` or before.
pub open spec fn starting_by(regions: Seq<(u64, u64)>, addr: u64) -> int
    decreases regions.len(),
{
    if regions.len() == 0 {
        0
    } else {
        starting_by(regions.drop_last(), addr) + if regions.last().0 <= addr {
            1int
        } else {
            0
        }
    }
}

/// The list of regions once the addresses from `start` to `end` are used too: all regions that
/// touch them become one.
pub open spec fn with_region(
    regions: Seq<(u64, u64)>,
    start: u64,
    end: u64,
) -> Seq<(u64, u64)> {
    let first = ending_before(regions, start);
    let behind = starting_by(regions, end);
    let lo = if first < behind && regions[first].0 < start {
        regions[first].0
    } else {
        start
    };
    let hi = if first < behind && regions[behind - 1].1 > end {
        regions[behind - 1].1
    } else {
        end
    };
    regions.take(first).push((lo, hi)) + regions.skip(behind)
}

/// The end of a region of `size` bytes at `start`, cut off at the last address.
pub open spec fn region_end(start: u64, size: u64) -> u64 {
    if start + size > u64::MAX {
        u64::MAX
    } else {
        (start + size) as u64
    }
}

/// The list of regions once `size` bytes at `start` are used too.
pub open spec fn marked(regions: Seq<(u64, u64)>, start: u64, size: u64) -> Seq<(u64, u64)> {
    if size == 0 {
        regions
    } else {
        with_region(regions, start, region_end(start, size))
    }
}

/// The gaps around the used regions, in ascending order. Address zero is in none of them: the
/// first gap starts at `alignment`. While nothing is used there are two views of the whole
/// space, one up to the last address and one up to the limit.
pub open spec fn gaps(regions: Seq<(u64, u64)>, alignment: u64) -> Seq<(u64, u64)> {
    if regions.len() == 0 {
        seq![(alignment, u64::MAX), (alignment, ADDRESS_LIMIT)]
    } else {
        Seq::new(
            regions.len() + 1,
            |i: int|
                (
                    if i == 0 {
                        alignment
                    } else {
                        regions[i - 1].1
                    },
                    if i == regions.len() {
                        ADDRESS_LIMIT
                    } else {
                        regions[i].0
                    },
                ),
        )
    }
}

/// The lowest aligned address of a gap.
pub open spec fn lowest(gap: (u64, u64), alignment: u64) -> int {
    arith::ceil_to(gap.0 as int, alignment as int)
}

/// The gap has room for `size` bytes at an aligned address.
pub open spec fn fits(gap: (u64, u64), size: u64, alignment: u64) -> bool {
    lowest(gap, alignment) + size <= gap.1
}

/// The gaps that have room, in the same order.
pub open spec fn fitting(gaps: Seq<(u64, u64)>, size: u64, alignment: u64) -> Seq<(u64, u64)>
    decreases gaps.len(),
{
    if gaps.len() == 0 {
        Seq::empty()
    } else {
        let rest = fitting(gaps.drop_last(), size, alignment);
        if fits(gaps.last(), size, alignment) {
            rest.push(gaps.last())
        } else {
            rest
        }
    }
}

/// All gaps that can fit the requested size and alignment.
pub open spec fn candidates(
    regions: Seq<(u64, u64)>,
    size: u64,
    alignment: u64,
) -> Seq<(u64, u64)> {
    fitting(gaps(regions, alignment), size, alignment)
}

/// How many aligned positions for `size` bytes a gap with room has.
pub open spec fn positions(gap: (u64, u64), size: u64, alignment: u64) -> int {
    (gap.1 - size - lowest(gap, alignment)) / alignment as int + 1
}

/// How many aligned positions a list of gaps has.
pub open spec fn total_positions(gaps: Seq<(u64, u64)>, size: u64, alignment: u64) -> int
    decreases gaps.len(),
{
    if gaps.len() == 0 {
        0
    } else {
        total_positions(gaps.drop_last(), size, alignment) + positions(
            gaps.last(),
            size,
            alignment,
        )
    }
}

/// The position with the given number, counted through all gaps from `next` on.
pub open spec fn position(
    gaps: Seq<(u64, u64)>,
    next: int,
    size: u64,
    alignment: u64,
    number: int,
) -> int
    decreases gaps.len() - next,
{
    if next < 0 || gaps.len() <= next {
        0
    } else if number < positions(gaps[next], size, alignment) {
        lowest(gaps[next], alignment) + number * alignment
    } else {
        position(
            gaps,
            next + 1,
            size,
            alignment,
            number - positions(gaps[next], size, alignment),
        )
    }
}

/// The number that a random word picks among `total` positions. Past the range of a word the
/// total counts as the largest word.
pub open spec fn picked(word: u64, total: int) -> int {
    if total > u64::MAX {
        word as int % u64::MAX as int
    } else {
        word as int % total
    }
}

/// Where a free region of `size` bytes is found: at the lowest address of the first gap with
/// room, or at the position that the random word picks.
pub open spec fn free_address(
    regions: Seq<(u64, u64)>,
    size: u64,
    alignment: u64,
    rng: Option<u64>,
) -> Option<int> {
    let list = candidates(regions, size, alignment);
    if list.len() == 0 {
        None
    } else {
        match rng {
            None => Some(lowest(list[0], alignment)),
            Some(word) => Some(
                position(
                    list,
                    0,
                    size,
                    alignment,
                    picked(word, total_positions(list, size, alignment)),
                ),
            ),
        }
    }
}

/// In a canonical list the regions that end before an address come first.
proof fn lemma_ending_before(regions: Seq<(u64, u64)>, addr: u64, first: int)
    requires
        0 <= first <= regions.len(),
        forall|i: int| 0 <= i < first ==> (#[trigger] regions[i]).1 < addr,
        forall|i: int| first <= i < regions.len() ==> (#[trigger] regions[i]).1 >= addr,
    ensures
        ending_before(regions, addr) == first,
    decreases regions.len(),
{
    if regions.len() > 0 {
        let rest = regions.drop_last();
        assert forall|i: int| 0 <= i < rest.len() implies #[trigger] rest[i] == regions[i] by {}
        if first == regions.len() {
            lemma_ending_before(rest, addr, first - 1);
        } else {
            lemma_ending_before(rest, addr, first);
        }
    }
}

/// In a canonical list the regions that start by an address come first.
proof fn lemma_starting_by(regions: Seq<(u64, u64)>, addr: u64, behind: int)
    requires
        0 <= behind <= regions.len(),
        forall|i: int| 0 <= i < behind ==> (#[trigger] regions[i]).0 <= addr,
        forall|i: int| behind <= i < regions.len() ==> (#[trigger] regions[i]).0 > addr,
    ensures
        starting_by(regions, addr) == behind,
    decreases regions.len(),
{
    if regions.len() > 0 {
        let rest = regions.drop_last();
        assert forall|i: int| 0 <= i < rest.len() implies #[trigger] rest[i] == regions[i] by {}
        if behind == regions.len() {
            lemma_starting_by(rest, addr, behind - 1);
        } else {
            lemma_starting_by(rest, addr, behind);
        }
    }
}

/// Where the regions that touch the addresses from `start` to `end` begin and end in a
/// canonical list.
proof fn lemma_touching(regions: Seq<(u64, u64)>, start: u64, end: u64)
    requires
        canonical(regions),
        start <= end,
    ensures
        0 <= ending_before(regions, start) <= starting_by(regions, end) <= regions.len(),
        forall|i: int|
            0 <= i < ending_before(regions, start) ==> (#[trigger] regions[i]).1 < start,
        forall|i: int|
            ending_before(regions, start) <= i < regions.len() ==> (#[trigger] regions[i]).1
                >= start,
        forall|i: int| 0 <= i < starting_by(regions, end) ==> (#[trigger] regions[i]).0 <= end,
        forall|i: int|
            starting_by(regions, end) <= i < regions.len() ==> (#[trigger] regions[i]).0 > end,
    decreases regions.len(),
{
    if regions.len() > 0 {
        let rest = regions.drop_last();
        let n = rest.len() as int;
        assert forall|i: int| 0 <= i < n implies rest[i] == #[trigger] regions[i] by {}
        lemma_touching(rest, start, end);
        if regions[n].1 < start {
            assert forall|i: int| 0 <= i < n implies (#[trigger] rest[i]).1 < start by {
                assert(regions[i].1 < regions[n].0);
            }
            lemma_ending_before(rest, start, n);
            lemma_ending_before(regions, start, n + 1);
        } else {
            lemma_ending_before(regions, start, ending_before(rest, start));
        }
        if regions[n].0 <= end {
            assert forall|i: int| 0 <= i < n implies (#[trigger] rest[i]).0 <= end by {
                assert(regions[i].1 < regions[n].0);
            }
            lemma_starting_by(rest, end, n);
            lemma_starting_by(regions, end, n + 1);
        } else {
            lemma_starting_by(regions, end, starting_by(rest, end));
        }
    }
}

/// Marking a region keeps the list canonical, and the used addresses are those from before and
/// those of the region.
pub proof fn lemma_with_region(regions: Seq<(u64, u64)>, start: u64, end: u64)
    requires
        canonical(regions),
        proper(start, end),
    ensures
        canonical(with_region(regions, start, end)),
        used(with_region(regions, start, end)) == used(regions).union(
            Set::new(|v: int| start <= v < end),
        ),
        with_region(regions, start, end).len() <= regions.len() + 1,
{
    lemma_touching(regions, start, end);
    let first = ending_before(regions, start);
    let behind = starting_by(regions, end);
    let after = with_region(regions, start, end);
    let merged = after[first];
    assert forall|i: int| 0 <= i < after.len() implies #[trigger] after[i] == (if i < first {
        regions[i]
    } else if i == first {
        merged
    } else {
        regions[behind + (i - first - 1)]
    }) by {}
    if first < behind {
        assert(proper(regions[first].0, regions[first].1));
        assert(proper(regions[behind - 1].0, regions[behind - 1].1));
    }
    assert forall|i: int, j: int| 0 <= i < j < after.len() implies (#[trigger] after[i]).1 < (
    #[trigger] after[j]).0 by {
        if i < first && j > first {
            let k = behind + (j - first - 1);
            assert(regions[i].1 < regions[k].0);
        } else if i == first {
            let k = behind + (j - first - 1);
            if first < behind {
                assert(regions[behind - 1].1 < regions[k].0);
            }
        } else if j == first && first < behind {
            assert(regions[i].1 < regions[first].0);
        } else if i > first {
            let k = behind + (i - first - 1);
            let l = behind + (j - first - 1);
            assert(regions[k].1 < regions[l].0);
        }
    }
    assert(canonical(after));
    let both = used(regions).union(Set::new(|v: int| start <= v < end));
    assert forall|v: int| used(after).contains(v) implies both.contains(v) by {
        let i = choose|i: int| 0 <= i < after.len() && (#[trigger] after[i]).0 <= v < after[i].1;
        if i < first {
            assert(regions[i].0 <= v < regions[i].1);
        } else if i > first {
            let k = behind + (i - first - 1);
            assert(regions[k].0 <= v < regions[k].1);
        } else if first < behind && !(start <= v < end) {
            if v < start {
                assert(regions[first].0 <= v < regions[first].1);
            } else {
                assert(regions[behind - 1].0 <= v < regions[behind - 1].1);
            }
        }
    }
    assert forall|v: int| both.contains(v) implies used(after).contains(v) by {
        if start <= v < end {
            assert(after[first].0 <= v < after[first].1);
        } else {
            let i = choose|i: int|
                0 <= i < regions.len() && (#[trigger] regions[i]).0 <= v < regions[i].1;
            if i < first {
                assert(after[i].0 <= v < after[i].1);
            } else if i < behind {
                if i > first {
                    assert(regions[first].1 < regions[i].0);
                }
                if i < behind - 1 {
                    assert(regions[i].1 < regions[behind - 1].0);
                }
                assert(after[first].0 <= v < after[first].1);
            } else {
                let k = first + 1 + (i - behind);
                assert(after[k].0 <= v < after[k].1);
            }
        }
    }
    assert(used(after) =~= both);
}

/// Marking bytes keeps the list canonical and makes exactly those bytes used.
pub proof fn lemma_marked(regions: Seq<(u64, u64)>, start: u64, size: u64)
    requires
        canonical(regions),
    ensures
        canonical(marked(regions, start, size)),
        used(marked(regions, start, size)) == used(regions).union(
            Set::new(|v: int| start <= v < start + size && v < u64::MAX),
        ),
        marked(regions, start, size).len() <= regions.len() + 1,
{
    let added = Set::new(|v: int| start <= v < start + size && v < u64::MAX);
    if size > 0 {
        let end = region_end(start, size);
        lemma_with_region(regions, start, end);
        assert(added =~= Set::new(|v: int| start <= v < end));
    } else {
        assert(used(regions).union(added) =~= used(regions));
    }
}

/// The used regions once all ranges of a list are marked, in order.
pub open spec fn all_marked(regions: Seq<(u64, u64)>, ranges: Seq<(u64, u64)>) -> Seq<(u64, u64)>
    decreases ranges.len(),
{
    if ranges.len() == 0 {
        regions
    } else {
        let rest = all_marked(regions, ranges.drop_last());
        marked(rest, ranges.last().0, ranges.last().1)
    }
}

/// Marking ranges keeps the list canonical, uses exactly their addresses, and adds at most one
/// region for each.
pub proof fn lemma_all_marked(regions: Seq<(u64, u64)>, ranges: Seq<(u64, u64)>)
    requires
        canonical(regions),
    ensures
        canonical(all_marked(regions, ranges)),
        all_marked(regions, ranges).len() <= regions.len() + ranges.len(),
        forall|v: int| #[trigger]
            used(all_marked(regions, ranges)).contains(v) <==> {
                ||| used(regions).contains(v)
                ||| exists|i: int|
                    0 <= i < ranges.len() && (#[trigger] ranges[i]).0 <= v < ranges[i].0
                        + ranges[i].1 && v < u64::MAX
            },
    decreases ranges.len(),
{
    if ranges.len() > 0 {
        let rest = ranges.drop_last();
        let n = rest.len() as int;
        let before = all_marked(regions, rest);
        lemma_all_marked(regions, rest);
        lemma_marked(before, ranges.last().0, ranges.last().1);
        let after = all_marked(regions, ranges);
        assert forall|v: int| #[trigger] used(after).contains(v) <==> {
            ||| used(regions).contains(v)
            ||| exists|i: int|
                0 <= i < ranges.len() && (#[trigger] ranges[i]).0 <= v < ranges[i].0 + ranges[i].1
                    && v < u64::MAX
        } by {
            assert(used(after).contains(v) <==> (used(
                before,
            ).contains(v) || (ranges[n].0 <= v < ranges[n].0 + ranges[n].1 && v < u64::MAX)));
            if exists|i: int|
                0 <= i < ranges.len() && (#[trigger] ranges[i]).0 <= v < ranges[i].0 + ranges[i].1
                    && v < u64::MAX {
                let i = choose|i: int|
                    0 <= i < ranges.len() && (#[trigger] ranges[i]).0 <= v < ranges[i].0
                        + ranges[i].1 && v < u64::MAX;
                if i < n {
                    assert(rest[i] == ranges[i]);
                }
            }
            if used(before).contains(v) && !used(regions).contains(
                v,
            ) {
                let i = choose|i: int|
                    0 <= i < rest.len() && (#[trigger] rest[i]).0 <= v < rest[i].0 + rest[i].1
                        && v < u64::MAX;
                assert(ranges[i] == rest[i]);
            }
        }
    }
}

/// No region of a list is empty.
pub open spec fn filled(regions: Seq<(u64, u64)>) -> bool {
    forall|i: int| 0 <= i < regions.len() ==> (#[trigger] regions[i]).0 < regions[i].1
}

/// A canonical list is determined by the addresses that it holds.
pub proof fn lemma_same_regions(a: Seq<(u64, u64)>, b: Seq<(u64, u64)>)
    requires
        canonical(a),
        canonical(b),
        filled(a),
        filled(b),
        used(a) == used(b),
    ensures
        a == b,
    decreases a.len(),
{
    if a.len() == 0 {
        if b.len() > 0 {
            assert(used(b).contains(b[0].0 as int));
            assert(used(a).contains(b[0].0 as int));
        }
        assert(a =~= b);
    } else {
        assert(used(a).contains(a[0].0 as int));
        assert(used(b).contains(a[0].0 as int));
        assert(b.len() > 0);
        assert(used(b).contains(b[0].0 as int));
        assert(used(a).contains(b[0].0 as int));
        lemma_first_region(a, b);
        lemma_first_region(b, a);
        assert(a[0] == b[0]);
        lemma_rest_used(a);
        lemma_rest_used(b);
        lemma_same_regions(a.drop_first(), b.drop_first());
        assert(a =~= seq![a[0]] + a.drop_first());
        assert(b =~= seq![b[0]] + b.drop_first());
    }
}

/// The first region of one of two lists that hold the same addresses starts and ends no later
/// than that of the other.
proof fn lemma_first_region(a: Seq<(u64, u64)>, b: Seq<(u64, u64)>)
    requires
        canonical(a),
        canonical(b),
        filled(a),
        filled(b),
        used(a) == used(b),
        a.len() > 0,
        b.len() > 0,
    ensures
        a[0].0 <= b[0].0,
        a[0].0 == b[0].0 ==> a[0].1 <= b[0].1,
{
    assert(used(b).contains(b[0].0 as int));
    let i = choose|i: int|
        0 <= i < a.len() && (#[trigger] a[i]).0 <= b[0].0 < a[i].1;
    if i > 0 {
        assert(a[0].1 < a[i].0);
    }
    if a[0].0 == b[0].0 && a[0].1 > b[0].1 {
        let v = b[0].1 as int;
        assert(used(a).contains(v));
        let j = choose|j: int| 0 <= j < b.len() && (#[trigger] b[j]).0 <= v < b[j].1;
        if j > 0 {
            assert(b[0].1 < b[j].0);
        }
    }
}

/// Without its first region a list is still canonical, and holds the addresses behind it.
proof fn lemma_rest_used(regions: Seq<(u64, u64)>)
    requires
        canonical(regions),
        filled(regions),
        regions.len() > 0,
    ensures
        canonical(regions.drop_first()),
        filled(regions.drop_first()),
        used(regions.drop_first()) == used(regions).difference(
            Set::new(|v: int| regions[0].0 <= v < regions[0].1),
        ),
{
    let rest = regions.drop_first();
    assert forall|i: int| 0 <= i < rest.len() implies #[trigger] rest[i] == regions[i + 1] by {}
    let behind = used(regions).difference(Set::new(|v: int| regions[0].0 <= v < regions[0].1));
    assert forall|v: int| used(rest).contains(v) == behind.contains(v) by {
        if used(rest).contains(v) {
            let i = choose|i: int| 0 <= i < rest.len() && (#[trigger] rest[i]).0 <= v < rest[i].1;
            assert(regions[i + 1].0 <= v < regions[i + 1].1);
            assert(regions[0].1 < regions[i + 1].0);
        }
        if behind.contains(v) {
            let i = choose|i: int|
                0 <= i < regions.len() && (#[trigger] regions[i]).0 <= v < regions[i].1;
            assert(rest[i - 1].0 <= v < rest[i - 1].1);
        }
    }
    assert(used(rest) =~= behind);
}

/// Marking ranges that start below the last address leaves no region empty.
proof fn lemma_all_filled(regions: Seq<(u64, u64)>, ranges: Seq<(u64, u64)>)
    requires
        canonical(regions),
        filled(regions),
        forall|i: int| 0 <= i < ranges.len() ==> (#[trigger] ranges[i]).0 < u64::MAX,
    ensures
        filled(all_marked(regions, ranges)),
    decreases ranges.len(),
{
    if ranges.len() > 0 {
        let rest = ranges.drop_last();
        assert forall|i: int| 0 <= i < rest.len() implies (#[trigger] rest[i]).0 < u64::MAX by {
            assert(rest[i] == ranges[i]);
        }
        lemma_all_marked(regions, rest);
        lemma_all_filled(regions, rest);
        let before = all_marked(regions, rest);
        let after = all_marked(regions, ranges);
        let (start, size) = ranges.last();
        assert(ranges[ranges.len() - 1].0 < u64::MAX);
        lemma_all_marked(regions, ranges);
        if size > 0 {
            let end = region_end(start, size);
            lemma_touching(before, start, end);
            let first = ending_before(before, start);
            let behind = starting_by(before, end);
            assert forall|i: int| 0 <= i < after.len() implies (#[trigger] after[i]).0
                < after[i].1 by {
                if i < first {
                    assert(after[i] == before[i]);
                } else if i > first {
                    assert(after[i] == before[behind + (i - first - 1)]);
                }
            }
        }
    }
}

/// Which ranges were marked is all that matters: neither their order nor how often each was
/// marked makes a difference. A range that starts at the very last address is left out, since
/// it holds no address.
pub proof fn lemma_marking_order(first: Seq<(u64, u64)>, second: Seq<(u64, u64)>)
    requires
        forall|range: (u64, u64)| #[trigger] first.contains(range) <==> second.contains(range),
        forall|i: int| 0 <= i < first.len() ==> (#[trigger] first[i]).0 < u64::MAX,
        forall|i: int| 0 <= i < second.len() ==> (#[trigger] second[i]).0 < u64::MAX,
    ensures
        all_marked(Seq::empty(), first) == all_marked(Seq::empty(), second),
{
    let none = Seq::<(u64, u64)>::empty();
    lemma_all_marked(none, first);
    lemma_all_marked(none, second);
    lemma_all_filled(none, first);
    lemma_all_filled(none, second);
    lemma_marks_contained(first, second);
    lemma_marks_contained(second, first);
    assert(used(all_marked(none, first)) =~= used(all_marked(none, second)));
    lemma_same_regions(all_marked(none, first), all_marked(none, second));
}

/// Marking more ranges uses no fewer addresses.
proof fn lemma_marks_contained(first: Seq<(u64, u64)>, second: Seq<(u64, u64)>)
    requires
        forall|range: (u64, u64)| #[trigger] first.contains(range) ==> second.contains(range),
    ensures
        used(all_marked(Seq::empty(), first)).subset_of(used(all_marked(Seq::empty(), second))),
{
    let none = Seq::<(u64, u64)>::empty();
    lemma_all_marked(none, first);
    lemma_all_marked(none, second);
    assert forall|v: int| #[trigger] used(all_marked(none, first)).contains(v) implies used(
        all_marked(none, second),
    ).contains(v) by {
        let i = choose|i: int|
            0 <= i < first.len() && (#[trigger] first[i]).0 <= v < first[i].0 + first[i].1 && v
                < u64::MAX;
        assert(first.contains(first[i]));
        assert(second.contains(first[i]));
        let j = choose|j: int| 0 <= j < second.len() && second[j] == first[i];
        assert(second[j].0 <= v < second[j].0 + second[j].1);
    }
}

/// The addresses at which a run of used addresses starts.
pub open spec fn run_starts(addresses: Set<int>) -> Set<int> {
    Set::new(|v: int| addresses.contains(v) && !addresses.contains(v - 1))
}

/// The number of regions is the number of runs of used addresses, each as long as can be.
pub proof fn lemma_regions_are_runs(regions: Seq<(u64, u64)>)
    requires
        canonical(regions),
        filled(regions),
    ensures
        run_starts(used(regions)).finite(),
        run_starts(used(regions)).len() == regions.len(),
{
    let starts = Seq::new(regions.len(), |i: int| regions[i].0 as int);
    assert(starts.no_duplicates()) by {
        assert forall|i: int, j: int|
            0 <= i < starts.len() && 0 <= j < starts.len() && i != j implies starts[i]
            != starts[j] by {
            if i < j {
                assert(regions[i].1 < regions[j].0);
            } else {
                assert(regions[j].1 < regions[i].0);
            }
        }
    }
    starts.unique_seq_to_set();
    assert forall|v: int| run_starts(used(regions)).contains(v) == starts.to_set().contains(v) by {
        if run_starts(used(regions)).contains(v) {
            let i = choose|i: int|
                0 <= i < regions.len() && (#[trigger] regions[i]).0 <= v < regions[i].1;
            if regions[i].0 < v {
                assert(used(regions).contains(v - 1));
            }
            assert(starts[i] == v);
        }
        if starts.to_set().contains(v) {
            let i = choose|i: int| 0 <= i < starts.len() && starts[i] == v;
            assert(regions[i].0 <= v < regions[i].1);
            assert(used(regions).contains(v));
            if used(regions).contains(v - 1) {
                let j = choose|j: int|
                    0 <= j < regions.len() && (#[trigger] regions[j]).0 <= v - 1 < regions[j].1;
                if j < i {
                    assert(regions[j].1 < regions[i].0);
                } else if j > i {
                    assert(regions[i].1 < regions[j].0);
                }
            }
        }
    }
    assert(run_starts(used(regions)) =~= starts.to_set());
}

/// Tracks used virtual address regions to find free space for new mappings.
///
/// Uses a simple sorted flat array. `find_free` scans gaps between used
/// regions for candidates that fit the requested size + alignment.
pub struct AddressSpace {
    /// Sorted array of (start, end_exclusive) used regions.
    regions: [(u64, u64); MAX_REGIONS],
    count: usize,
}

impl View for AddressSpace {
    type V = Seq<(u64, u64)>;

    closed spec fn view(&self) -> Seq<(u64, u64)> {
        self.regions@.take(self.count as int)
    }
}

impl AddressSpace {
    #[verifier::type_invariant]
    spec fn valid(self) -> bool {
        &&& self.count <= MAX_REGIONS
        &&& canonical(self.regions@.take(self.count as int))
    }

    /// Create a tracker in which every address is free.
    pub fn new() -> (r: Self)
        ensures
            r@ == Seq::<(u64, u64)>::empty(),
    {
        let r = AddressSpace { regions: [(0, 0); MAX_REGIONS], count: 0 };
        assert(r@ =~= Seq::<(u64, u64)>::empty());
        r
    }

    /// Mark a virtual address range as used.
    ///
    /// The range `[start, start + size)` will be considered occupied.
    pub fn mark_used(&mut self, start: VirtAddr, size: u64)
        requires
            size == 0 || old(self)@.len() < MAX_REGIONS,
        ensures
            final(self)@ == marked(old(self)@, start.0, size),
            canonical(old(self)@),
            canonical(final(self)@),
    {
        proof {
            use_type_invariant(&*self);
        }
        if size == 0 {
            return;
        }
        let ghost before = self@;
        let start: u64 = start.as_u64();
        let end: u64 = start.saturating_add(size);
        let count: usize = self.count;
        // The regions before `first` end before the new one; `behind` and later start after it.
        let mut first: usize = 0;
        while first < count && self.regions[first].1 < start
            invariant
                first <= count,
                count <= MAX_REGIONS,
                count == self.count,
                before == self.regions@.take(count as int),
                forall|i: int| 0 <= i < first ==> (#[trigger] before[i]).1 < start,
            decreases count - first,
        {
            assert(before[first as int] == self.regions@[first as int]);
            first = first + 1;
        }
        let mut behind: usize = first;
        proof {
            lemma_touching(before, start, end);
            assert forall|i: int| first <= i < before.len() implies (#[trigger] before[i]).1
                >= start by {
                assert(before[first as int] == self.regions@[first as int]);
                if i > first {
                    assert(before[first as int].1 < before[i].0);
                }
            }
            lemma_ending_before(before, start, first as int);
        }
        while behind < count && self.regions[behind].0 <= end
            invariant
                first <= behind <= count,
                count <= MAX_REGIONS,
                count == self.count,
                before == self.regions@.take(count as int),
                start <= end,
                canonical(before),
                forall|i: int| 0 <= i < first ==> (#[trigger] before[i]).1 < start,
                forall|i: int| 0 <= i < behind ==> (#[trigger] before[i]).0 <= end,
            decreases count - behind,
        {
            assert(before[behind as int] == self.regions@[behind as int]);
            behind = behind + 1;
        }
        proof {
            assert forall|i: int| behind <= i < before.len() implies (#[trigger] before[i]).0
                > end by {
                assert(before[behind as int] == self.regions@[behind as int]);
                if i > behind {
                    assert(before[behind as int].1 < before[i].0);
                }
            }
            lemma_starting_by(before, end, behind as int);
            lemma_with_region(before, start, end);
        }
        let mut lo: u64 = start;
        let mut hi: u64 = end;
        if first < behind {
            if self.regions[first].0 < start {
                lo = self.regions[first].0;
            }
            if self.regions[behind - 1].1 > end {
                hi = self.regions[behind - 1].1;
            }
        }
        let ghost goal = with_region(before, start, end);
        let mut regions: [(u64, u64); MAX_REGIONS] = self.regions;
        regions[first] = (lo, hi);
        let mut write: usize = first + 1;
        let mut read: usize = behind;
        proof {
            assert(goal.len() == first + 1 + (count - behind));
            assert forall|i: int| 0 <= i < write implies #[trigger] regions@[i] == goal[i] by {}
        }
        while read < count
            invariant
                count == self.count,
                count <= MAX_REGIONS,
                before == self.regions@.take(count as int),
                first <= behind <= read <= count,
                write == first + 1 + (read - behind),
                goal.len() == first + 1 + (count - behind),
                goal.len() <= MAX_REGIONS,
                forall|i: int|
                    first < i < goal.len() ==> #[trigger] goal[i] == before[behind + (i - first
                        - 1)],
                forall|i: int| 0 <= i < write ==> #[trigger] regions@[i] == goal[i],
            decreases count - read,
        {
            regions[write] = self.regions[read];
            write = write + 1;
            read = read + 1;
        }
        assert(regions@.take(write as int) =~= goal);
        *self = AddressSpace { regions, count: write };
    }

    /// Find a free region of `size` bytes with the given alignment.
    ///
    /// If `rng` is a random word, the region is chosen by it among all
    /// candidates (ASLR). If `None`, the first suitable gap is used.
    ///
    /// Returns the start address of the free region and marks it as used.
    pub fn find_free(&mut self, size: u64, alignment: u64, rng: Option<u64>) -> (r: Option<
        VirtAddr,
    >)
        requires
            size > 0,
            vstd::arithmetic::power2::is_pow2(alignment as int),
            free_address(old(self)@, size, alignment, rng) is Some ==> old(self)@.len()
                < MAX_REGIONS,
        ensures
            match free_address(old(self)@, size, alignment, rng) {
                Some(addr) => {
                    &&& r == Some(VirtAddr(addr as u64))
                    &&& final(self)@ == marked(old(self)@, addr as u64, size)
                },
                None => r is None && final(self)@ == old(self)@,
            },
            canonical(old(self)@),
            canonical(final(self)@),
    {
        proof {
            use_type_invariant(&*self);
        }
        match self.choose_free(size, alignment, rng) {
            Some(addr) => {
                self.mark_used(VirtAddr::new(addr), size);
                Some(VirtAddr::new(addr))
            },
            None => None,
        }
    }

    /// Find a free region without marking it.
    pub(crate) fn choose_free(&self, size: u64, alignment: u64, rng: Option<u64>) -> (r: Option<
        u64,
    >)
        requires
            size > 0,
            vstd::arithmetic::power2::is_pow2(alignment as int),
        ensures
            match free_address(self@, size, alignment, rng) {
                Some(addr) => r == Some(addr as u64) && 0 <= addr <= u64::MAX,
                None => r is None,
            },
            canonical(self@),
    {
        proof {
            use_type_invariant(self);
            arith::lemma_powers_divide(alignment as int, alignment as int);
            lemma_fitting(gaps(self@, alignment), size, alignment);
        }
        let list = self.collect_candidates(size, alignment);
        if list.count == 0 {
            return None;
        }
        match rng {
            Some(word) => Some(pick_random_candidate(&list, size, alignment, word)),
            None => {
                // First fit: use the first candidate at offset 0.
                let (gap_start, _) = list.entries[0];
                assert(list@[0] == list.entries@[0]);
                aligned(gap_start, alignment)
            },
        }
    }

    /// Collect all gaps that can fit the requested size + alignment.
    ///
    /// Returns a list of (gap_start, gap_end_exclusive) pairs.
    fn collect_candidates(&self, size: u64, alignment: u64) -> (r: CandidateList)
        requires
            size > 0,
            alignment > 0,
        ensures
            r@ == candidates(self@, size, alignment),
            r.count <= MAX_GAPS,
    {
        proof {
            use_type_invariant(self);
        }
        let ghost all = gaps(self@, alignment);
        let mut list = CandidateList { entries: [(0, 0); MAX_GAPS], count: 0 };
        if self.count == 0 {
            // No used regions at all: the whole space (minus 0) is free.
            proof {
                let first: Seq<(u64, u64)> = seq![(alignment, u64::MAX)];
                assert(first.drop_last() =~= Seq::empty());
                assert(self@ =~= Seq::empty());
                assert(all.drop_last() =~= first);
                assert(all.last() == (alignment, ADDRESS_LIMIT));
                assert(list@ =~= fitting(first.drop_last(), size, alignment));
                assert(first.last() == (alignment, u64::MAX));
                reveal_with_fuel(fitting, 3);
            }
            list.push_if_fitting((alignment, u64::MAX), size, alignment);
            list.push_if_fitting((alignment, ADDRESS_LIMIT), size, alignment);
            return list;
        }
        assert(list@ =~= fitting(all.take(0), size, alignment));
        // The gap before the first region skips address 0: never allocate at NULL.
        let mut gap_start: u64 = alignment;
        let mut i: usize = 0;
        while i < self.count
            invariant
                i <= self.count,
                0 < self.count <= MAX_REGIONS,
                alignment > 0,
                all == gaps(self@, alignment),
                self@.len() == self.count,
                list.count <= i,
                gap_start == all[i as int].0,
                list@ == fitting(all.take(i as int), size, alignment),
            decreases self.count - i,
        {
            let gap_end: u64 = self.regions[i].0;
            proof {
                assert(self@[i as int] == self.regions@[i as int]);
                assert(all.take(i + 1).drop_last() =~= all.take(i as int));
                assert(all.take(i + 1).last() == (gap_start, gap_end));
            }
            list.push_if_fitting((gap_start, gap_end), size, alignment);
            gap_start = self.regions[i].1;
            i = i + 1;
        }
        // The gap after the last region ends a little before the end of the address space.
        proof {
            assert(all.drop_last() =~= all.take(i as int));
            assert(all.last() == (gap_start, ADDRESS_LIMIT));
        }
        list.push_if_fitting((gap_start, ADDRESS_LIMIT), size, alignment);
        list
    }

    /// How many regions there would be if a range were marked as used.
    pub(crate) fn count_with(&self, start: VirtAddr, size: u64) -> (r: usize)
        requires
            size == 0 || self@.len() < MAX_REGIONS,
        ensures
            r == marked(self@, start.0, size).len(),
            canonical(self@),
    {
        proof {
            use_type_invariant(self);
        }
        let mut space = AddressSpace { regions: self.regions, count: self.count };
        assert(space@ =~= self@);
        space.mark_used(start, size);
        space.region_count()
    }

    /// Returns the number of tracked regions.
    pub fn region_count(&self) -> (r: usize)
        ensures
            r == self@.len(),
            r <= MAX_REGIONS,
    {
        proof {
            use_type_invariant(self);
        }
        self.count
    }
}

/// The lowest multiple of `alignment` from `value` on, if it is an address.
fn aligned(value: u64, alignment: u64) -> (r: Option<u64>)
    requires
        alignment > 0,
    ensures
        match r {
            Some(a) => a == arith::ceil_to(value as int, alignment as int),
            None => arith::ceil_to(value as int, alignment as int) > u64::MAX,
        },
{
    let rest: u64 = value % alignment;
    if rest == 0 {
        Some(value)
    } else {
        value.checked_add(alignment - rest)
    }
}

/// Every gap that was collected has room, and is one of the gaps.
proof fn lemma_fitting(all: Seq<(u64, u64)>, size: u64, alignment: u64)
    ensures
        fitting(all, size, alignment).len() <= all.len(),
        forall|i: int|
            0 <= i < fitting(all, size, alignment).len() ==> {
                &&& fits(#[trigger] fitting(all, size, alignment)[i], size, alignment)
                &&& all.contains(fitting(all, size, alignment)[i])
            },
    decreases all.len(),
{
    if all.len() > 0 {
        let rest = all.drop_last();
        let list = fitting(all, size, alignment);
        let part = fitting(rest, size, alignment);
        lemma_fitting(rest, size, alignment);
        assert forall|i: int| 0 <= i < list.len() implies fits(
            #[trigger] list[i],
            size,
            alignment,
        ) && all.contains(list[i]) by {
            if i < part.len() {
                assert(part[i] == list[i]);
                assert(rest.contains(part[i]));
                let j = choose|j: int| 0 <= j < rest.len() && rest[j] == part[i];
                assert(all[j] == list[i]);
            } else {
                assert(all[all.len() - 1] == list[i]);
            }
        }
    }
}

/// A gap with room has at least one position, and each position lies in the gap.
proof fn lemma_positions(gap: (u64, u64), size: u64, alignment: u64, number: int)
    requires
        fits(gap, size, alignment),
        alignment > 0,
        0 <= number < positions(gap, size, alignment),
    ensures
        gap.0 <= lowest(gap, alignment),
        lowest(gap, alignment) <= lowest(gap, alignment) + number * alignment,
        lowest(gap, alignment) + number * alignment + size <= gap.1,
        (lowest(gap, alignment) + number * alignment) % (alignment as int) == 0,
{
    let a = alignment as int;
    let low = lowest(gap, alignment);
    let room = gap.1 - size - low;
    arith::lemma_ceil_facts(gap.0 as int, a);
    assert(0 <= number * a <= room) by (nonlinear_arith)
        requires
            0 <= number <= room / a,
            a > 0,
            room >= 0,
    ;
    vstd::arithmetic::div_mod::lemma_mod_multiples_vanish(number, low, a);
}

/// The position with a number below the total is a position of one of the gaps.
proof fn lemma_position(
    list: Seq<(u64, u64)>,
    next: int,
    size: u64,
    alignment: u64,
    number: int,
) -> (gap: (u64, u64))
    requires
        0 <= next <= list.len(),
        alignment > 0,
        forall|i: int| 0 <= i < list.len() ==> fits(#[trigger] list[i], size, alignment),
        0 <= number < total_positions(list, size, alignment) - total_positions(
            list.take(next),
            size,
            alignment,
        ),
    ensures
        list.contains(gap),
        ({
            let addr = position(list, next, size, alignment, number);
            &&& gap.0 <= addr
            &&& addr + size <= gap.1
            &&& addr % (alignment as int) == 0
        }),
    decreases list.len() - next,
{
    if next == list.len() {
        assert(list.take(next) =~= list);
        list[0]
    } else {
        let count = positions(list[next], size, alignment);
        if number < count {
            lemma_positions(list[next], size, alignment, number);
            list[next]
        } else {
            assert(list.take(next + 1).drop_last() =~= list.take(next));
            assert(list.take(next + 1).last() == list[next]);
            lemma_position(list, next + 1, size, alignment, number - count)
        }
    }
}

/// A list of gaps with room has at least one position.
proof fn lemma_some_position(list: Seq<(u64, u64)>, size: u64, alignment: u64)
    requires
        alignment > 0,
        forall|i: int| 0 <= i < list.len() ==> fits(#[trigger] list[i], size, alignment),
    ensures
        total_positions(list, size, alignment) >= list.len(),
    decreases list.len(),
{
    if list.len() > 0 {
        let rest = list.drop_last();
        assert forall|i: int| 0 <= i < rest.len() implies fits(
            #[trigger] rest[i],
            size,
            alignment,
        ) by {
            assert(rest[i] == list[i]);
        }
        lemma_some_position(rest, size, alignment);
        let gap = list.last();
        assert(fits(list[list.len() - 1], size, alignment));
        vstd::arithmetic::div_mod::lemma_div_pos_is_pos(
            gap.1 - size - lowest(gap, alignment),
            alignment as int,
        );
    }
}

/// No address inside a gap is used.
proof fn lemma_gap_is_free(regions: Seq<(u64, u64)>, alignment: u64, gap: (u64, u64), v: int)
    requires
        canonical(regions),
        gaps(regions, alignment).contains(gap),
        gap.0 <= v < gap.1,
    ensures
        !used(regions).contains(v),
{
    let all = gaps(regions, alignment);
    let g = choose|g: int| 0 <= g < all.len() && all[g] == gap;
    assert(all[g] == gap);
    if used(regions).contains(v) {
        let i = choose|i: int|
            0 <= i < regions.len() && (#[trigger] regions[i]).0 <= v < regions[i].1;
        if i < g - 1 {
            assert(regions[i].1 < regions[g - 1].0);
            assert(proper(regions[g - 1].0, regions[g - 1].1));
        }
        if i > g {
            assert(regions[g].1 < regions[i].0);
            assert(proper(regions[g].0, regions[g].1));
        }
    }
}

/// A region that is found was free, is aligned, does not start at address zero, and ends
/// inside the address space.
pub proof fn lemma_found_is_free(
    regions: Seq<(u64, u64)>,
    size: u64,
    alignment: u64,
    rng: Option<u64>,
)
    requires
        canonical(regions),
        size > 0,
        vstd::arithmetic::power2::is_pow2(alignment as int),
    ensures
        free_address(regions, size, alignment, rng) matches Some(addr) ==> {
            &&& 0 < addr
            &&& addr % (alignment as int) == 0
            &&& addr + size <= u64::MAX
            &&& forall|v: int| addr <= v < addr + size ==> !#[trigger] used(regions).contains(v)
        },
{
    let all = gaps(regions, alignment);
    let list = candidates(regions, size, alignment);
    arith::lemma_powers_divide(alignment as int, alignment as int);
    lemma_fitting(all, size, alignment);
    if list.len() > 0 {
        let addr = free_address(regions, size, alignment, rng).unwrap();
        let gap = match rng {
            None => {
                arith::lemma_ceil_facts(list[0].0 as int, alignment as int);
                list[0]
            },
            Some(word) => {
                let total = total_positions(list, size, alignment);
                lemma_some_position(list, size, alignment);
                assert(list.take(0) =~= Seq::empty());
                let number = picked(word, total);
                vstd::arithmetic::div_mod::lemma_mod_bound(word as int, total);
                lemma_position(list, 0, size, alignment, number)
            },
        };
        assert(list.contains(gap));
        let j = choose|j: int| 0 <= j < list.len() && list[j] == gap;
        assert(all.contains(list[j]));
        let g = choose|g: int| 0 <= g < all.len() && all[g] == gap;
        assert(all[g] == gap);
        if regions.len() > 0 {
            if g > 0 {
                assert(proper(regions[g - 1].0, regions[g - 1].1));
            }
        }
        assert forall|v: int| addr <= v < addr + size implies !#[trigger] used(regions).contains(
            v,
        ) by {
            lemma_gap_is_free(regions, alignment, gap, v);
        }
    }
}

/// The gaps that have room keep their order: the first of them is the first gap with room.
proof fn lemma_first_fitting(all: Seq<(u64, u64)>, size: u64, alignment: u64, g: int) -> (first:
    int)
    requires
        0 <= g < all.len(),
        fits(all[g], size, alignment),
    ensures
        0 <= first <= g,
        fitting(all, size, alignment).len() > 0,
        fitting(all, size, alignment)[0] == all[first],
    decreases all.len(),
{
    let rest = all.drop_last();
    if g < all.len() - 1 {
        assert(rest[g] == all[g]);
        let first = lemma_first_fitting(rest, size, alignment, g);
        assert(rest[first] == all[first]);
        first
    } else if fitting(rest, size, alignment).len() == 0 {
        g
    } else {
        lemma_fitting(rest, size, alignment);
        let gap = fitting(rest, size, alignment)[0];
        assert(rest.contains(gap));
        let first = choose|j: int| 0 <= j < rest.len() && rest[j] == gap;
        assert(all[first] == gap);
        first
    }
}

/// An address up to which a free region can be handed out: it lies below the limit, or before
/// a used region.
pub open spec fn within_reach(regions: Seq<(u64, u64)>, end: int) -> bool {
    end <= ADDRESS_LIMIT || exists|i: int|
        0 <= i < regions.len() && end <= (#[trigger] regions[i]).0
}

/// A place for a region of `size` bytes: it is aligned, not at address zero, and free.
pub open spec fn is_place(regions: Seq<(u64, u64)>, size: u64, alignment: u64, addr: int) -> bool {
    &&& 0 < addr
    &&& addr % (alignment as int) == 0
    &&& within_reach(regions, addr + size)
    &&& forall|v: int| addr <= v < addr + size ==> !#[trigger] used(regions).contains(v)
}

/// The gap in which a free region lies. `next` regions are known to end before it.
proof fn lemma_gap_of(
    regions: Seq<(u64, u64)>,
    alignment: u64,
    addr: int,
    size: u64,
    next: int,
) -> (g: int)
    requires
        canonical(regions),
        regions.len() > 0,
        size > 0,
        alignment <= addr,
        within_reach(regions, addr + size),
        forall|v: int| addr <= v < addr + size ==> !#[trigger] used(regions).contains(v),
        0 <= next <= regions.len(),
        next > 0 ==> regions[next - 1].1 <= addr,
    ensures
        0 <= g < gaps(regions, alignment).len(),
        gaps(regions, alignment)[g].0 <= addr,
        addr + size <= gaps(regions, alignment)[g].1,
    decreases regions.len() - next,
{
    if next == regions.len() || addr + size <= regions[next].0 {
        if next == regions.len() && addr + size > ADDRESS_LIMIT {
            let i = choose|i: int|
                0 <= i < regions.len() && addr + size <= (#[trigger] regions[i]).0;
            assert(proper(regions[i].0, regions[i].1));
            assert(regions[next - 1].1 <= addr);
            if i < next - 1 {
                assert(regions[i].1 < regions[next - 1].0);
                assert(proper(regions[next - 1].0, regions[next - 1].1));
            }
        }
        next
    } else {
        let (start, end) = regions[next];
        assert(proper(start, end));
        if end > addr {
            let v = if addr < start {
                start as int
            } else {
                addr
            };
            assert(regions[next].0 <= v < regions[next].1);
            assert(used(regions).contains(v));
        }
        lemma_gap_of(regions, alignment, addr, size, next + 1)
    }
}

/// A search without a random word finds the lowest aligned free region: while there is a free
/// region below the limit, one is found, and no aligned region before it is free.
pub proof fn lemma_first_fit_is_lowest(
    regions: Seq<(u64, u64)>,
    size: u64,
    alignment: u64,
    addr: int,
)
    requires
        canonical(regions),
        size > 0,
        vstd::arithmetic::power2::is_pow2(alignment as int),
        alignment <= addr,
        addr % (alignment as int) == 0,
        addr + size <= ADDRESS_LIMIT,
        forall|v: int| addr <= v < addr + size ==> !#[trigger] used(regions).contains(v),
    ensures
        free_address(regions, size, alignment, None) matches Some(found) && found <= addr,
        forall|word: u64| #[trigger]
            free_address(regions, size, alignment, Some(word)) is Some,
{
    let all = gaps(regions, alignment);
    arith::lemma_powers_divide(alignment as int, alignment as int);
    let g = if regions.len() == 0 {
        0
    } else {
        lemma_gap_of(regions, alignment, addr, size, 0)
    };
    assert(all[g].0 <= addr && addr + size <= all[g].1);
    arith::lemma_ceil_facts(all[g].0 as int, alignment as int);
    if lowest(all[g], alignment) > addr {
        arith::lemma_multiples_apart(lowest(all[g], alignment), addr, alignment as int);
    }
    let first = lemma_first_fitting(all, size, alignment, g);
    lemma_fitting(all, size, alignment);
    let list = fitting(all, size, alignment);
    assert(fits(list[0], size, alignment));
    if first < g {
        assert(all[first].1 <= all[g].0) by {
            assert(proper(regions[first].0, regions[first].1));
            if first < g - 1 {
                assert(regions[first].1 < regions[g - 1].0);
                assert(proper(regions[g - 1].0, regions[g - 1].1));
            }
        }
    }
}

/// A gap with room is collected.
proof fn lemma_collected(all: Seq<(u64, u64)>, size: u64, alignment: u64, g: int) -> (j: int)
    requires
        0 <= g < all.len(),
        fits(all[g], size, alignment),
    ensures
        0 <= j < fitting(all, size, alignment).len(),
        fitting(all, size, alignment)[j] == all[g],
    decreases all.len(),
{
    let rest = all.drop_last();
    if g < all.len() - 1 {
        assert(rest[g] == all[g]);
        lemma_collected(rest, size, alignment, g)
    } else {
        fitting(rest, size, alignment).len() as int
    }
}

/// The positions of the gap with number `j` come behind those of the gaps before it.
proof fn lemma_position_in(
    list: Seq<(u64, u64)>,
    next: int,
    j: int,
    size: u64,
    alignment: u64,
    number: int,
)
    requires
        0 <= next <= j < list.len(),
        alignment > 0,
        forall|i: int| 0 <= i < list.len() ==> fits(#[trigger] list[i], size, alignment),
        0 <= number < positions(list[j], size, alignment),
    ensures
        ({
            let before = total_positions(list.take(j), size, alignment) - total_positions(
                list.take(next),
                size,
                alignment,
            );
            &&& before >= 0
            &&& position(list, next, size, alignment, before + number) == lowest(
                list[j],
                alignment,
            ) + number * alignment
        }),
    decreases j - next,
{
    if next < j {
        lemma_position_in(list, next + 1, j, size, alignment, number);
        assert(list.take(next + 1).drop_last() =~= list.take(next));
        assert(list.take(next + 1).last() == list[next]);
        let gap = list[next];
        vstd::arithmetic::div_mod::lemma_div_pos_is_pos(
            gap.1 - size - lowest(gap, alignment),
            alignment as int,
        );
    }
}

/// Every place is one of the positions of the gaps with room.
proof fn lemma_place_number(
    regions: Seq<(u64, u64)>,
    size: u64,
    alignment: u64,
    addr: int,
) -> (chosen: int)
    requires
        canonical(regions),
        size > 0,
        vstd::arithmetic::power2::is_pow2(alignment as int),
        is_place(regions, size, alignment, addr),
    ensures
        ({
            let list = candidates(regions, size, alignment);
            &&& list.len() > 0
            &&& 0 <= chosen < total_positions(list, size, alignment)
            &&& position(list, 0, size, alignment, chosen) == addr
        }),
{
    let a = alignment as int;
    let all = gaps(regions, alignment);
    let list = candidates(regions, size, alignment);
    arith::lemma_powers_divide(a, a);
    if addr < a {
        vstd::arithmetic::div_mod::lemma_small_mod(addr as nat, a as nat);
    }
    let g = if regions.len() == 0 {
        0
    } else {
        lemma_gap_of(regions, alignment, addr, size, 0)
    };
    let gap = all[g];
    assert(gap.0 <= addr && addr + size <= gap.1);
    arith::lemma_ceil_facts(gap.0 as int, a);
    let low = lowest(gap, alignment);
    if low > addr {
        arith::lemma_multiples_apart(low, addr, a);
    }
    lemma_fitting(all, size, alignment);
    let j = lemma_collected(all, size, alignment, g);
    arith::lemma_multiples_add(addr, low, a);
    vstd::arithmetic::div_mod::lemma_fundamental_div_mod(addr - low, a);
    let number = (addr - low) / a;
    vstd::arithmetic::div_mod::lemma_div_pos_is_pos(addr - low, a);
    vstd::arithmetic::div_mod::lemma_div_is_ordered(addr - low, gap.1 - size - low, a);
    vstd::arithmetic::mul::lemma_mul_is_commutative(number, a);
    assert(list.take(0) =~= Seq::empty());
    lemma_position_in(list, 0, j, size, alignment, number);
    let chosen = total_positions(list.take(j), size, alignment) + number;
    let total = total_positions(list, size, alignment);
    assert(chosen < total) by {
        let last = list.len() - 1;
        vstd::arithmetic::div_mod::lemma_div_pos_is_pos(
            list[last].1 - size - lowest(list[last], alignment),
            a,
        );
        lemma_position_in(list, j, last, size, alignment, 0);
        assert(list.take(last) =~= list.drop_last());
        if j < last {
            lemma_position_in(list, j + 1, last, size, alignment, 0);
            assert(list.take(j + 1).drop_last() =~= list.take(j));
            assert(list.take(j + 1).last() == list[j]);
        }
    }
    chosen
}

/// A random word can pick every aligned free region below the limit, unless there are more
/// positions than words.
pub proof fn lemma_every_place_can_be_picked(
    regions: Seq<(u64, u64)>,
    size: u64,
    alignment: u64,
    addr: int,
)
    requires
        canonical(regions),
        size > 0,
        vstd::arithmetic::power2::is_pow2(alignment as int),
        alignment <= addr,
        addr % (alignment as int) == 0,
        addr + size <= ADDRESS_LIMIT,
        forall|v: int| addr <= v < addr + size ==> !#[trigger] used(regions).contains(v),
        total_positions(candidates(regions, size, alignment), size, alignment) <= u64::MAX,
    ensures
        exists|word: u64| #[trigger]
            free_address(regions, size, alignment, Some(word)) == Some(addr),
{
    let list = candidates(regions, size, alignment);
    let total = total_positions(list, size, alignment);
    arith::lemma_powers_divide(alignment as int, alignment as int);
    let chosen = lemma_place_number(regions, size, alignment, addr);
    vstd::arithmetic::div_mod::lemma_small_mod(chosen as nat, total as nat);
    assert(free_address(regions, size, alignment, Some(chosen as u64)) == Some(addr));
}

/// Gaps in ascending order that do not overlap.
spec fn ascending(list: Seq<(u64, u64)>) -> bool {
    forall|i: int, j: int|
        0 <= i < j < list.len() ==> (#[trigger] list[i]).1 <= (#[trigger] list[j]).0
}

/// The gaps around used regions are in ascending order.
proof fn lemma_gaps_ascend(regions: Seq<(u64, u64)>, alignment: u64)
    requires
        canonical(regions),
        regions.len() > 0,
    ensures
        ascending(gaps(regions, alignment)),
{
    let all = gaps(regions, alignment);
    assert forall|i: int, j: int| 0 <= i < j < all.len() implies (#[trigger] all[i]).1 <= (
    #[trigger] all[j]).0 by {
        assert(proper(regions[i].0, regions[i].1));
        assert(proper(regions[j - 1].0, regions[j - 1].1));
        if i < j - 1 {
            assert(regions[i].1 < regions[j - 1].0);
        }
    }
}

/// The gaps with room keep their order.
proof fn lemma_fitting_ascend(all: Seq<(u64, u64)>, size: u64, alignment: u64)
    requires
        ascending(all),
    ensures
        ascending(fitting(all, size, alignment)),
    decreases all.len(),
{
    if all.len() > 0 {
        let rest = all.drop_last();
        assert forall|i: int, j: int| 0 <= i < j < rest.len() implies (#[trigger] rest[i]).1 <= (
        #[trigger] rest[j]).0 by {
            assert(all[i].1 <= all[j].0);
        }
        lemma_fitting_ascend(rest, size, alignment);
        lemma_fitting(rest, size, alignment);
        let part = fitting(rest, size, alignment);
        let list = fitting(all, size, alignment);
        assert forall|i: int, j: int| 0 <= i < j < list.len() implies (#[trigger] list[i]).1 <= (
        #[trigger] list[j]).0 by {
            assert(list[i] == part[i]);
            if j < part.len() {
                assert(list[j] == part[j]);
            } else {
                assert(rest.contains(part[i]));
                let k = choose|k: int| 0 <= k < rest.len() && rest[k] == part[i];
                assert(all[k].1 <= all[all.len() - 1].0);
            }
        }
    }
}

/// A position with a higher number lies higher.
proof fn lemma_position_order(
    list: Seq<(u64, u64)>,
    next: int,
    size: u64,
    alignment: u64,
    low: int,
    high: int,
)
    requires
        0 <= next <= list.len(),
        alignment > 0,
        size > 0,
        ascending(list),
        forall|i: int| 0 <= i < list.len() ==> fits(#[trigger] list[i], size, alignment),
        0 <= low < high < total_positions(list, size, alignment) - total_positions(
            list.take(next),
            size,
            alignment,
        ),
    ensures
        position(list, next, size, alignment, low) < position(
            list,
            next,
            size,
            alignment,
            high,
        ),
    decreases list.len() - next,
{
    if next == list.len() {
        assert(list.take(next) =~= list);
    } else {
        let count = positions(list[next], size, alignment);
        assert(list.take(next + 1).drop_last() =~= list.take(next));
        assert(list.take(next + 1).last() == list[next]);
        if high < count {
            assert(low * alignment < high * alignment) by (nonlinear_arith)
                requires
                    low < high,
                    alignment > 0,
            ;
        } else if low >= count {
            lemma_position_order(list, next + 1, size, alignment, low - count, high - count);
        } else {
            lemma_positions(list[next], size, alignment, low);
            lemma_position_above(list, next + 1, size, alignment, high - count);
        }
    }
}

/// A position lies behind the start of the first gap that is counted.
proof fn lemma_position_above(
    list: Seq<(u64, u64)>,
    next: int,
    size: u64,
    alignment: u64,
    number: int,
)
    requires
        0 <= next <= list.len(),
        alignment > 0,
        size > 0,
        ascending(list),
        forall|i: int| 0 <= i < list.len() ==> fits(#[trigger] list[i], size, alignment),
        0 <= number < total_positions(list, size, alignment) - total_positions(
            list.take(next),
            size,
            alignment,
        ),
    ensures
        next < list.len(),
        list[next].0 <= position(list, next, size, alignment, number),
    decreases list.len() - next,
{
    if next == list.len() {
        assert(list.take(next) =~= list);
    } else {
        let count = positions(list[next], size, alignment);
        assert(list.take(next + 1).drop_last() =~= list.take(next));
        assert(list.take(next + 1).last() == list[next]);
        if number < count {
            lemma_positions(list[next], size, alignment, number);
        } else {
            lemma_position_above(list, next + 1, size, alignment, number - count);
            vstd::arithmetic::div_mod::lemma_div_pos_is_pos(
                list[next].1 - size - lowest(list[next], alignment),
                alignment as int,
            );
            lemma_positions(list[next], size, alignment, 0);
        }
    }
}

/// What the positions around used regions are: places, in ascending order, and no more than
/// there are words.
proof fn lemma_numbered_places(
    regions: Seq<(u64, u64)>,
    size: u64,
    alignment: u64,
    number: int,
)
    requires
        canonical(regions),
        regions.len() > 0,
        size > 0,
        vstd::arithmetic::power2::is_pow2(alignment as int),
        ({
            let list = candidates(regions, size, alignment);
            0 <= number < total_positions(list, size, alignment)
        }),
    ensures
        ({
            let list = candidates(regions, size, alignment);
            let addr = position(list, 0, size, alignment, number);
            &&& is_place(regions, size, alignment, addr)
            &&& addr <= u64::MAX
            &&& addr >= (number + 1) * alignment
        }),
    decreases number,
{
    let a = alignment as int;
    let all = gaps(regions, alignment);
    let list = candidates(regions, size, alignment);
    arith::lemma_powers_divide(a, a);
    lemma_fitting(all, size, alignment);
    lemma_gaps_ascend(regions, alignment);
    lemma_fitting_ascend(all, size, alignment);
    assert(list.take(0) =~= Seq::empty());
    let addr = position(list, 0, size, alignment, number);
    let gap = lemma_position(list, 0, size, alignment, number);
    let j = choose|j: int| 0 <= j < list.len() && list[j] == gap;
    assert(all.contains(list[j]));
    let g = choose|g: int| 0 <= g < all.len() && all[g] == gap;
    assert(all[g] == gap);
    if g > 0 {
        assert(all[0].1 <= all[g].0);
        assert(proper(regions[g - 1].0, regions[g - 1].1));
        if g > 1 {
            assert(regions[0].1 < regions[g - 1].0);
        }
    }
    if g < regions.len() {
        assert(addr + size <= regions[g].0);
    }
    assert forall|v: int| addr <= v < addr + size implies !#[trigger] used(regions).contains(
        v,
    ) by {
        lemma_gap_is_free(regions, alignment, gap, v);
    }
    if addr == 0 {
        assert(g > 0);
    }
    if addr < a {
        vstd::arithmetic::div_mod::lemma_small_mod(addr as nat, a as nat);
    }
    if number > 0 {
        lemma_numbered_places(regions, size, alignment, number - 1);
        lemma_position_order(list, 0, size, alignment, number - 1, number);
        let below = position(list, 0, size, alignment, number - 1);
        if addr - below < a {
            arith::lemma_multiples_apart(below, addr, a);
        }
        assert((number + 1) * a == number * a + a) by (nonlinear_arith);
    } else {
        assert((number + 1) * a == a) by (nonlinear_arith)
            requires
                number == 0,
        ;
    }
}

/// The lowest of all places.
pub open spec fn is_lowest_place(
    regions: Seq<(u64, u64)>,
    size: u64,
    alignment: u64,
    addr: int,
) -> bool {
    &&& is_place(regions, size, alignment, addr)
    &&& forall|p: int| #[trigger] is_place(regions, size, alignment, p) ==> addr <= p
}

/// The place `next` comes behind the place `addr`, with no other in between. Behind the highest
/// place comes the lowest.
pub open spec fn is_next_place(
    regions: Seq<(u64, u64)>,
    size: u64,
    alignment: u64,
    addr: int,
    next: int,
) -> bool {
    &&& is_place(regions, size, alignment, next)
    &&& if next > addr {
        forall|p: int| #[trigger]
            is_place(regions, size, alignment, p) ==> p <= addr || next <= p
    } else {
        &&& is_lowest_place(regions, size, alignment, next)
        &&& forall|p: int| #[trigger] is_place(regions, size, alignment, p) ==> p <= addr
    }
}

/// The random word goes round the places: word zero picks the lowest, and the next word picks
/// the next place, or the lowest again behind the highest. So every place is picked by as many
/// words as any other, or by one word more or less. Without a word the lowest place is taken.
pub proof fn lemma_random_choice_goes_round(
    regions: Seq<(u64, u64)>,
    size: u64,
    alignment: u64,
    word: u64,
    some: int,
)
    requires
        canonical(regions),
        regions.len() > 0,
        size > 0,
        vstd::arithmetic::power2::is_pow2(alignment as int),
        is_place(regions, size, alignment, some),
    ensures
        free_address(regions, size, alignment, None) matches Some(lowest) && is_lowest_place(
            regions,
            size,
            alignment,
            lowest,
        ),
        free_address(regions, size, alignment, Some(0)) == free_address(
            regions,
            size,
            alignment,
            None,
        ),
        free_address(regions, size, alignment, Some(word)) matches Some(addr) && is_place(
            regions,
            size,
            alignment,
            addr,
        ),
        word < u64::MAX ==> {
            let here = free_address(regions, size, alignment, Some(word));
            let there = free_address(regions, size, alignment, Some((word + 1) as u64));
            &&& there is Some
            &&& is_next_place(regions, size, alignment, here.unwrap(), there.unwrap())
        },
{
    let a = alignment as int;
    let all = gaps(regions, alignment);
    let list = candidates(regions, size, alignment);
    let total = total_positions(list, size, alignment);
    arith::lemma_powers_divide(a, a);
    lemma_fitting(all, size, alignment);
    lemma_gaps_ascend(regions, alignment);
    lemma_fitting_ascend(all, size, alignment);
    assert(list.take(0) =~= Seq::empty());
    let some_number = lemma_place_number(regions, size, alignment, some);
    lemma_numbered_places(regions, size, alignment, total - 1);
    assert(total <= u64::MAX) by (nonlinear_arith)
        requires
            a > 0,
            (total - 1 + 1) * a <= u64::MAX,
    ;
    assert forall|p: int, n: int|
        #[trigger] is_place(regions, size, alignment, p) && 0 <= n < total implies {
        let at = #[trigger] position(list, 0, size, alignment, n);
        &&& n == 0 ==> at <= p
        &&& n == total - 1 ==> p <= at
        &&& n < total - 1 ==> p <= at || position(list, 0, size, alignment, n + 1) <= p
    } by {
        let k = lemma_place_number(regions, size, alignment, p);
        if 0 < k {
            lemma_position_order(list, 0, size, alignment, 0, k);
        }
        if k < total - 1 {
            lemma_position_order(list, 0, size, alignment, k, total - 1);
        }
        if k < n {
            lemma_position_order(list, 0, size, alignment, k, n);
        }
        if n + 1 < k {
            lemma_position_order(list, 0, size, alignment, n + 1, k);
        }
    }
    vstd::arithmetic::div_mod::lemma_small_mod(0, total as nat);
    lemma_numbered_places(regions, size, alignment, 0);
    let first = position(list, 0, size, alignment, 0);
    assert(free_address(regions, size, alignment, Some(0)) == Some(first));
    vstd::arithmetic::div_mod::lemma_div_pos_is_pos(
        list[0].1 - size - lowest(list[0], alignment),
        a,
    );
    lemma_position_in(list, 0, 0, size, alignment, 0);
    let n = word as int % total;
    vstd::arithmetic::div_mod::lemma_mod_bound(word as int, total);
    lemma_numbered_places(regions, size, alignment, n);
    let addr = position(list, 0, size, alignment, n);
    assert(free_address(regions, size, alignment, Some(word)) == Some(addr));
    if word < u64::MAX {
        let turns = word as int / total;
        vstd::arithmetic::div_mod::lemma_fundamental_div_mod(word as int, total);
        if n + 1 < total {
            vstd::arithmetic::div_mod::lemma_fundamental_div_mod_converse(
                word + 1,
                total,
                turns,
                n + 1,
            );
            lemma_position_order(list, 0, size, alignment, n, n + 1);
            lemma_numbered_places(regions, size, alignment, n + 1);
        } else {
            assert(word + 1 == (turns + 1) * total) by (nonlinear_arith)
                requires
                    word == total * turns + n,
                    n + 1 == total,
            ;
            vstd::arithmetic::div_mod::lemma_fundamental_div_mod_converse(
                word + 1,
                total,
                turns + 1,
                0,
            );
            assert(is_place(regions, size, alignment, first));
        }
        let m = (word + 1) % total;
        assert(free_address(regions, size, alignment, Some((word + 1) as u64)) == Some(
            position(list, 0, size, alignment, m),
        ));
    }
}

/// A search fails if and only if there is no place, whatever the random word.
pub proof fn lemma_search_fails_without_place(
    regions: Seq<(u64, u64)>,
    size: u64,
    alignment: u64,
    rng: Option<u64>,
)
    requires
        canonical(regions),
        regions.len() > 0,
        size > 0,
        vstd::arithmetic::power2::is_pow2(alignment as int),
    ensures
        free_address(regions, size, alignment, rng) is None <==> forall|p: int|
            !#[trigger] is_place(regions, size, alignment, p),
{
    let list = candidates(regions, size, alignment);
    arith::lemma_powers_divide(alignment as int, alignment as int);
    if free_address(regions, size, alignment, rng) is None {
        assert forall|p: int| !#[trigger] is_place(regions, size, alignment, p) by {
            if is_place(regions, size, alignment, p) {
                let n = lemma_place_number(regions, size, alignment, p);
            }
        }
    } else {
        lemma_fitting(gaps(regions, alignment), size, alignment);
        lemma_some_position(list, size, alignment);
        lemma_numbered_places(regions, size, alignment, 0);
    }
}

/// While nothing is used, word zero picks the lowest place, and the next word picks the next
/// place. Only where less than one more place is left below the limit may it start again with
/// the lowest.
pub proof fn lemma_random_choice_in_empty_space(size: u64, alignment: u64, word: u64)
    requires
        size > 0,
        vstd::arithmetic::power2::is_pow2(alignment as int),
        alignment > 1,
        alignment + size <= ADDRESS_LIMIT,
        word < u64::MAX,
    ensures
        free_address(Seq::empty(), size, alignment, None) == Some(alignment as int),
        free_address(Seq::empty(), size, alignment, Some(0)) == Some(alignment as int),
        free_address(Seq::empty(), size, alignment, Some(word)) matches Some(addr) && (
        free_address(Seq::empty(), size, alignment, Some((word + 1) as u64)) == Some(
            addr + alignment,
        ) || {
            &&& free_address(Seq::empty(), size, alignment, Some((word + 1) as u64)) == Some(
                alignment as int,
            )
            &&& addr + alignment + size > ADDRESS_LIMIT
        }),
{
    let a = alignment as int;
    let none = Seq::<(u64, u64)>::empty();
    let all = gaps(none, alignment);
    let list = candidates(none, size, alignment);
    arith::lemma_powers_divide(a, a);
    arith::lemma_ceil_facts(a, a);
    vstd::arithmetic::div_mod::lemma_mod_self_0(a);
    assert(lowest(all[0], alignment) == a) by {
        if lowest(all[0], alignment) != a {
            arith::lemma_multiples_apart(a, lowest(all[0], alignment), a);
        }
    }
    reveal_with_fuel(fitting, 3);
    assert(all.drop_last().drop_last() =~= Seq::empty());
    assert(list =~= all);
    let first = positions(list[0], size, alignment);
    let second = positions(list[1], size, alignment);
    reveal_with_fuel(total_positions, 3);
    assert(list.drop_last().drop_last() =~= Seq::empty());
    let total = total_positions(list, size, alignment);
    assert(total == first + second);
    vstd::arithmetic::div_mod::lemma_div_pos_is_pos(u64::MAX - size - a, a);
    vstd::arithmetic::div_mod::lemma_div_pos_is_pos(ADDRESS_LIMIT - size - a, a);
    vstd::arithmetic::div_mod::lemma_div_is_ordered(
        ADDRESS_LIMIT - size - a,
        u64::MAX - size - a,
        a,
    );
    assert(2 * first <= u64::MAX) by (nonlinear_arith)
        requires
            a >= 2,
            first == (u64::MAX - size - a) / a + 1,
            u64::MAX - size - a >= 0,
            size > 0,
    ;
    reveal_with_fuel(position, 3);
    let n = word as int % total;
    let turns = word as int / total;
    vstd::arithmetic::div_mod::lemma_mod_bound(word as int, total);
    vstd::arithmetic::div_mod::lemma_small_mod(0, total as nat);
    vstd::arithmetic::div_mod::lemma_fundamental_div_mod(word as int, total);
    if n + 1 < total {
        vstd::arithmetic::div_mod::lemma_fundamental_div_mod_converse(
            word + 1,
            total,
            turns,
            n + 1,
        );
    } else {
        assert(word + 1 == (turns + 1) * total) by (nonlinear_arith)
            requires
                word == total * turns + n,
                n + 1 == total,
        ;
        vstd::arithmetic::div_mod::lemma_fundamental_div_mod_converse(
            word + 1,
            total,
            turns + 1,
            0,
        );
    }
    let k = if n < first {
        n
    } else {
        n - first
    };
    let limit = if n < first {
        u64::MAX as int
    } else {
        ADDRESS_LIMIT as int
    };
    let last = (limit - size - a) / a;
    assert((k + 1) * a == k * a + a) by (nonlinear_arith);
    assert(k == last ==> a + k * a + a + size > limit) by (nonlinear_arith)
        requires
            last == (limit - size - a) / a,
            a > 0,
    ;
}

/// Small fixed-capacity list for candidate gaps (avoids heap allocation).
struct CandidateList {
    entries: [(u64, u64); MAX_GAPS],
    count: usize,
}

impl View for CandidateList {
    type V = Seq<(u64, u64)>;

    closed spec fn view(&self) -> Seq<(u64, u64)> {
        self.entries@.take(self.count as int)
    }
}

impl CandidateList {
    /// Add a gap if it has room.
    fn push_if_fitting(&mut self, gap: (u64, u64), size: u64, alignment: u64)
        requires
            old(self).count < MAX_GAPS,
            alignment > 0,
        ensures
            final(self).count <= old(self).count + 1,
            final(self)@ == if fits(gap, size, alignment) {
                old(self)@.push(gap)
            } else {
                old(self)@
            },
    {
        let (gap_start, gap_end) = gap;
        if let Some(aligned_start) = aligned(gap_start, alignment) {
            if aligned_start <= gap_end && size <= gap_end - aligned_start {
                let ghost before = self@;
                self.entries[self.count] = gap;
                self.count = self.count + 1;
                assert(self@ =~= before.push(gap));
            }
        }
    }
}

/// The position that a random word picks among all aligned positions of the candidates.
fn pick_random_candidate(
    list: &CandidateList,
    size: u64,
    alignment: u64,
    word: u64,
) -> (r: u64)
    requires
        0 < list.count <= MAX_GAPS,
        size > 0,
        alignment > 0,
        forall|i: int| 0 <= i < list@.len() ==> fits(#[trigger] list@[i], size, alignment),
    ensures
        r == position(
            list@,
            0,
            size,
            alignment,
            picked(word, total_positions(list@, size, alignment)),
        ),
{
    let ghost gaps = list@;
    // Count total number of aligned positions across all gaps.
    let mut total: u64 = 0;
    let mut i: usize = 0;
    assert(gaps.take(0) =~= Seq::empty());
    while i < list.count
        invariant
            i <= list.count <= MAX_GAPS,
            gaps == list@,
            gaps.len() == list.count,
            alignment > 0,
            size > 0,
            i > 0 ==> total > 0,
            total_positions(gaps.take(i as int), size, alignment) >= 0,
            total == if total_positions(gaps.take(i as int), size, alignment) > u64::MAX {
                u64::MAX as int
            } else {
                total_positions(gaps.take(i as int), size, alignment)
            },
            forall|i: int| 0 <= i < gaps.len() ==> fits(#[trigger] gaps[i], size, alignment),
        decreases list.count - i,
    {
        assert(gaps[i as int] == list.entries@[i as int]);
        let count: u64 = count_positions(list.entries[i], size, alignment);
        proof {
            assert(gaps.take(i + 1).drop_last() =~= gaps.take(i as int));
            assert(gaps.take(i + 1).last() == gaps[i as int]);
        }
        total = total.saturating_add(count);
        i = i + 1;
    }
    assert(gaps.take(i as int) =~= gaps);
    // Pick a random position index.
    let chosen: u64 = word % total;
    // Map the chosen index back to an address.
    let mut remaining: u64 = chosen;
    let mut j: usize = 0;
    while j < list.count
        invariant
            j <= list.count <= MAX_GAPS,
            gaps == list@,
            gaps.len() == list.count,
            alignment > 0,
            size > 0,
            chosen == picked(word, total_positions(gaps, size, alignment)),
            chosen < total_positions(gaps, size, alignment),
            remaining + total_positions(gaps.take(j as int), size, alignment) == chosen,
            position(gaps, j as int, size, alignment, remaining as int) == position(
                gaps,
                0,
                size,
                alignment,
                chosen as int,
            ),
            forall|i: int| 0 <= i < gaps.len() ==> fits(#[trigger] gaps[i], size, alignment),
        decreases list.count - j,
    {
        let (gap_start, gap_end) = list.entries[j];
        assert(gaps[j as int] == list.entries@[j as int]);
        let count: u64 = count_positions((gap_start, gap_end), size, alignment);
        if remaining < count {
            proof {
                lemma_positions(gaps[j as int], size, alignment, remaining as int);
            }
            return lowest_in((gap_start, gap_end), alignment) + remaining * alignment;
        }
        proof {
            assert(gaps.take(j + 1).drop_last() =~= gaps.take(j as int));
            assert(gaps.take(j + 1).last() == gaps[j as int]);
        }
        remaining = remaining - count;
        j = j + 1;
    }
    assert(gaps.take(j as int) =~= gaps);
    0
}

/// The number of aligned positions of a gap with room.
fn count_positions(gap: (u64, u64), size: u64, alignment: u64) -> (r: u64)
    requires
        fits(gap, size, alignment),
        size > 0,
        alignment > 0,
    ensures
        r == positions(gap, size, alignment),
        r > 0,
{
    let low: u64 = lowest_in(gap, alignment);
    let room: u64 = gap.1 - size - low;
    proof {
        vstd::arithmetic::div_mod::lemma_div_is_ordered_by_denominator(
            room as int,
            1,
            alignment as int,
        );
        vstd::arithmetic::div_mod::lemma_div_pos_is_pos(room as int, alignment as int);
        vstd::arithmetic::div_mod::lemma_div_by_multiple(room as int, 1);
    }
    room / alignment + 1
}

/// The lowest aligned address of a gap with room.
fn lowest_in(gap: (u64, u64), alignment: u64) -> (r: u64)
    requires
        alignment > 0,
        lowest(gap, alignment) <= u64::MAX,
    ensures
        r == lowest(gap, alignment),
        gap.0 <= r,
{
    proof {
        arith::lemma_ceil_facts(gap.0 as int, alignment as int);
    }
    match aligned(gap.0, alignment) {
        Some(a) => a,
        None => gap.0,
    }
}

} // verus!
