//! Properties of loading as a whole, proved of the functions that the contracts speak of.

use crate::address_space;
use crate::arith;
use crate::elf_file::{
    DynamicEntry, DynamicView, ElfView, ProgramHeader, DT_RELA, DT_RELAENT, DT_RELASZ, ET_DYN,
    ET_EXEC, PT_GNU_RELRO, PT_LOAD, PT_TLS,
};
use crate::elf_loading;
use crate::error::LoadError;
use crate::loader;
use crate::loader::KernelPlacement;
use crate::mapping;
use crate::paging;
use crate::paging::{Cell, PageEntry};
use crate::physical;
use crate::physical::{Answer, Physical, Run};
use crate::relocation;
use crate::relocation::{Fetch, Virtual};
use crate::state::Snapshot;
use crate::traits;
use crate::traits::{PageFlags, PageSize, PhysAddr, VirtAddr};
use crate::zeroed;
use crate::LoadedKernel;
use vstd::prelude::*;

verus! {

/// The same addresses are mapped, and each reads the same byte.
pub open spec fn same_bytes<S>(first: Map<int, Cell<S>>, second: Map<int, Cell<S>>) -> bool {
    &&& forall|v: int| #[trigger] second.contains_key(v) == first.contains_key(v)
    &&& forall|v: int| first.contains_key(v) ==> #[trigger] second[v].byte == first[v].byte
}

/// Memory is mapped in whole base pages: an address is mapped if and only if the start of its
/// page is.
pub open spec fn page_wise<S: PageSize>(vm: Map<int, Cell<S>>) -> bool {
    &&& paging::base::<S>() > 0
    &&& forall|page: int, v: int|
        page % paging::base::<S>() == 0 && page <= v < page + paging::base::<S>()
            ==> #[trigger] vm.contains_key(page) == #[trigger] vm.contains_key(v)
}

/// The virtual memory of a valid page table is mapped in whole base pages.
pub proof fn lemma_page_wise<S: PageSize>(
    entries: Map<u64, PageEntry<S>>,
    memory: Map<int, u8>,
)
    requires
        paging::wf_entries(entries),
    ensures
        page_wise(paging::virtual_memory(entries, memory)),
{
    let b = paging::base::<S>();
    let vm = paging::virtual_memory(entries, memory);
    assert forall|page: int, v: int| page % b == 0 && page <= v < page + b implies
        #[trigger] vm.contains_key(page) == #[trigger] vm.contains_key(v) by {
        if paging::mapped(entries, v) {
            let k = paging::page_at(entries, v);
            assert(paging::covers(entries, k, v));
            paging::lemma_block_in_page(entries, k, page, v);
            assert(paging::covers(entries, k, page));
        }
        if paging::mapped(entries, page) {
            let k = paging::page_at(entries, page);
            assert(paging::covers(entries, k, page));
            paging::lemma_block_in_page(entries, k, page, page);
            assert(paging::covers(entries, k, v));
        }
    }
}

/// Making a page writable for relocation by copying it changes no byte of virtual memory.
pub proof fn lemma_copying_keeps_bytes<S: PageSize>(
    vm: Map<int, Cell<S>>,
    copied: Seq<u64>,
    page: u64,
)
    ensures
        same_bytes(vm, relocation::with_owned_page(vm, copied, page)),
{
}

/// A word that relocation writes is read back, and no byte outside the word changes.
pub proof fn lemma_written_word_is_read_back<S: PageSize>(
    vm: Map<int, Cell<S>>,
    copied: Seq<u64>,
    addr: u64,
    value: u64,
)
    requires
        page_wise(vm),
    ensures
        relocation::put(vm, copied, addr, value) matches Run::Done(Virtual { vm: after, .. }) ==> {
            &&& page_wise(after)
            &&& relocation::fetch(after, addr) == Fetch::Word(value)
            &&& forall|v: int| #[trigger] after.contains_key(v) == vm.contains_key(v)
            &&& forall|v: int|
                !(addr <= v < addr + 8) && vm.contains_key(v) ==> #[trigger] after[v].byte
                    == vm[v].byte
        },
{
    match relocation::put(vm, copied, addr, value) {
        Run::Done(Virtual { vm: after, .. }) => {
            let bytes = arith::le_bytes(value);
            let b = paging::base::<S>();
            arith::lemma_floor_facts(addr as int, b);
            let page = relocation::page_of::<S>(addr);
            assert forall|v: int| addr <= v < addr + 8 implies #[trigger] vm.contains_key(v) by {
                assert(vm.contains_key(page as int));
            }
            arith::lemma_le_round_trip(value);
            let read = Seq::new(8, |i: int| after[addr + i].byte);
            assert(read =~= bytes);
        },
        _ => {},
    }
}

/// Two words do not overlap.
pub open spec fn apart(first: u64, second: u64) -> bool {
    first + 8 <= second || second + 8 <= first
}

/// A word that relocation does not write keeps its value.
pub proof fn lemma_other_word_is_kept<S: PageSize>(
    vm: Map<int, Cell<S>>,
    copied: Seq<u64>,
    addr: u64,
    value: u64,
    other: u64,
)
    requires
        page_wise(vm),
        apart(addr, other),
    ensures
        relocation::put(vm, copied, addr, value) matches Run::Done(Virtual { vm: after, .. })
            ==> relocation::fetch(after, other) == relocation::fetch(vm, other),
{
    match relocation::put(vm, copied, addr, value) {
        Run::Done(Virtual { vm: after, .. }) => {
            lemma_written_word_is_read_back(vm, copied, addr, value);
            if relocation::fetch(vm, other) is Word {
                let page = relocation::page_of::<S>(other);
                arith::lemma_floor_facts(other as int, paging::base::<S>());
                assert forall|v: int| other <= v < other + 8 implies #[trigger] vm.contains_key(
                    v,
                ) by {
                    assert(vm.contains_key(page as int));
                }
                let first = Seq::new(8, |i: int| vm[other + i].byte);
                let second = Seq::new(8, |i: int| after[other + i].byte);
                assert(second =~= first);
            }
        },
        _ => {},
    }
}

/// The word at an address that can be read.
pub open spec fn word_at<S: PageSize>(vm: Map<int, Cell<S>>, addr: u64) -> u64 {
    match relocation::fetch(vm, addr) {
        Fetch::Word(word) => word,
        _ => 0,
    }
}

/// The address of a field of a RELA entry: the offset is field 0, the type 1, the addend 2.
pub open spec fn rela_field(table: u64, number: int, field: int) -> u64 {
    arith::wrapped_sum(arith::wrapped_sum(table, number * 24), field * 8)
}

/// The address that a RELA entry relocates.
pub open spec fn rela_target<S: PageSize>(
    vm: Map<int, Cell<S>>,
    table: u64,
    number: int,
    load_base: i64,
) -> u64 {
    arith::rebased(word_at(vm, rela_field(table, number, 0)), load_base)
}

/// The value that a RELA entry gives to its address: the load base plus the addend.
pub open spec fn rela_value<S: PageSize>(
    vm: Map<int, Cell<S>>,
    table: u64,
    number: int,
    load_base: i64,
) -> u64 {
    arith::rebased(word_at(vm, rela_field(table, number, 2)), load_base)
}

/// The RELA entries from number `first` on relocate different words, none of them in the table.
pub open spec fn rela_separate<S: PageSize>(
    vm: Map<int, Cell<S>>,
    table: u64,
    first: int,
    count: int,
    load_base: i64,
) -> bool {
    &&& forall|i: int, j: int|
        first <= i < j < count ==> apart(
            #[trigger] rela_target(vm, table, i, load_base),
            #[trigger] rela_target(vm, table, j, load_base),
        )
    &&& forall|i: int, j: int, field: int|
        first <= i < count && first <= j < count && 0 <= field < 3 ==> apart(
            #[trigger] rela_target(vm, table, i, load_base),
            #[trigger] rela_field(table, j, field),
        )
}

/// Applying one RELA entry writes its value to its address.
pub proof fn lemma_rela_entry<S: PageSize>(
    vm: Map<int, Cell<S>>,
    copied: Seq<u64>,
    table: u64,
    number: int,
    load_base: i64,
    expected: u32,
)
    ensures
        ({
            let step = relocation::rela_step(
                Virtual { vm, copied },
                arith::wrapped_sum(table, number * 24),
                load_base,
                expected,
            );
            step is Done ==> step == relocation::put(
                vm,
                copied,
                rela_target(vm, table, number, load_base),
                rela_value(vm, table, number, load_base),
            )
        }),
{
    let at = arith::wrapped_sum(table, number * 24);
    assert(rela_field(table, number, 0) == at);
    assert(rela_field(table, number, 2) == arith::wrapped_sum(at, 16));
}

/// Applying one RELA entry leaves the entries behind it as they are.
proof fn lemma_rela_rest<S: PageSize>(
    vm: Map<int, Cell<S>>,
    copied: Seq<u64>,
    table: u64,
    first: int,
    count: int,
    load_base: i64,
    next: Map<int, Cell<S>>,
    next_copied: Seq<u64>,
)
    requires
        page_wise(vm),
        first < count,
        rela_separate(vm, table, first, count, load_base),
        relocation::put(
            vm,
            copied,
            rela_target(vm, table, first, load_base),
            rela_value(vm, table, first, load_base),
        ) == (Run::Done(Virtual { vm: next, copied: next_copied })),
    ensures
        rela_separate(next, table, first + 1, count, load_base),
        forall|j: int|
            first < j < count ==> #[trigger] rela_target(next, table, j, load_base) == rela_target(
                vm,
                table,
                j,
                load_base,
            ) && rela_value(next, table, j, load_base) == rela_value(vm, table, j, load_base),
{
    let target = rela_target(vm, table, first, load_base);
    let value = rela_value(vm, table, first, load_base);
    assert forall|j: int| first < j < count implies #[trigger] rela_target(
        next,
        table,
        j,
        load_base,
    ) == rela_target(vm, table, j, load_base) && rela_value(next, table, j, load_base)
        == rela_value(vm, table, j, load_base) by {
        assert(apart(target, rela_field(table, j, 0)));
        assert(apart(target, rela_field(table, j, 2)));
        lemma_other_word_is_kept(vm, copied, target, value, rela_field(table, j, 0));
        lemma_other_word_is_kept(vm, copied, target, value, rela_field(table, j, 2));
    }
    assert forall|i: int, j: int| first + 1 <= i < j < count implies apart(
        #[trigger] rela_target(next, table, i, load_base),
        #[trigger] rela_target(next, table, j, load_base),
    ) by {
        assert(apart(
            rela_target(vm, table, i, load_base),
            rela_target(vm, table, j, load_base),
        ));
    }
    assert forall|i: int, j: int, field: int|
        first + 1 <= i < count && first + 1 <= j < count && 0 <= field < 3 implies apart(
        #[trigger] rela_target(next, table, i, load_base),
        #[trigger] rela_field(table, j, field),
    ) by {
        assert(apart(rela_target(vm, table, i, load_base), rela_field(table, j, field)));
    }
}

/// Once a RELA table is applied, each address that it relocates holds the load base plus the
/// addend of its entry, and every other word keeps its value.
pub proof fn lemma_rela_relocates<S: PageSize>(
    vm: Map<int, Cell<S>>,
    copied: Seq<u64>,
    table: u64,
    first: int,
    count: int,
    load_base: i64,
    expected: u32,
)
    requires
        page_wise(vm),
        rela_separate(vm, table, first, count, load_base),
    ensures
        relocation::rela_run(
            Virtual { vm, copied },
            table,
            first,
            count,
            load_base,
            expected,
        ) matches Run::Done(Virtual { vm: after, .. }) ==> {
            &&& forall|i: int|
                first <= i < count ==> relocation::fetch(
                    after,
                    #[trigger] rela_target(vm, table, i, load_base),
                ) == Fetch::Word(rela_value(vm, table, i, load_base))
            &&& forall|other: u64|
                rela_spares(vm, table, first, count, load_base, other)
                    ==> #[trigger] relocation::fetch(after, other) == relocation::fetch(vm, other)
        },
    decreases count - first,
{
    if first < count {
        let target = rela_target(vm, table, first, load_base);
        let value = rela_value(vm, table, first, load_base);
        lemma_rela_entry(vm, copied, table, first, load_base, expected);
        match relocation::put(vm, copied, target, value) {
            Run::Done(Virtual { vm: next, copied: next_copied }) => {
                lemma_written_word_is_read_back(vm, copied, target, value);
                lemma_rela_rest(
                    vm,
                    copied,
                    table,
                    first,
                    count,
                    load_base,
                    next,
                    next_copied,
                );
                lemma_rela_relocates(
                    next,
                    next_copied,
                    table,
                    first + 1,
                    count,
                    load_base,
                    expected,
                );
                let rest = relocation::rela_run(
                    Virtual { vm: next, copied: next_copied },
                    table,
                    first + 1,
                    count,
                    load_base,
                    expected,
                );
                if let Run::Done(Virtual { vm: after, .. }) = rest {
                    assert(rela_spares(next, table, first + 1, count, load_base, target)) by {
                        assert forall|j: int| first + 1 <= j < count implies apart(
                            #[trigger] rela_target(next, table, j, load_base),
                            target,
                        ) by {
                            assert(apart(target, rela_target(vm, table, j, load_base)));
                        }
                    }
                    assert forall|i: int| first <= i < count implies relocation::fetch(
                        after,
                        #[trigger] rela_target(vm, table, i, load_base),
                    ) == Fetch::Word(rela_value(vm, table, i, load_base)) by {
                        if i > first {
                            assert(rela_target(next, table, i, load_base) == rela_target(
                                vm,
                                table,
                                i,
                                load_base,
                            ));
                        }
                    }
                    assert forall|other: u64|
                        rela_spares(vm, table, first, count, load_base, other) implies
                        #[trigger] relocation::fetch(after, other) == relocation::fetch(
                        vm,
                        other,
                    ) by {
                        assert(apart(rela_target(vm, table, first, load_base), other));
                        lemma_other_word_is_kept(vm, copied, target, value, other);
                        assert(rela_spares(next, table, first + 1, count, load_base, other)) by {
                            assert forall|j: int| first + 1 <= j < count implies apart(
                                #[trigger] rela_target(next, table, j, load_base),
                                other,
                            ) by {
                                assert(apart(rela_target(vm, table, j, load_base), other));
                            }
                        }
                    }
                }
            },
            _ => {},
        }
    }
}

/// No RELA entry from number `first` on relocates a part of the word at `other`.
pub open spec fn rela_spares<S: PageSize>(
    vm: Map<int, Cell<S>>,
    table: u64,
    first: int,
    count: int,
    load_base: i64,
    other: u64,
) -> bool {
    forall|i: int|
        first <= i < count ==> apart(#[trigger] rela_target(vm, table, i, load_base), other)
}

/// Adding the load base to each word of a list, one after another.
pub open spec fn adjust_all<S: PageSize>(
    vm: Map<int, Cell<S>>,
    copied: Seq<u64>,
    words: Seq<u64>,
    load_base: i64,
) -> Run<Virtual<S>>
    decreases words.len(),
{
    if words.len() == 0 {
        Run::Done(Virtual { vm, copied })
    } else {
        match relocation::adjust(Virtual { vm, copied }, words[0], load_base) {
            Run::Done(Virtual { vm: next, copied: next_copied }) => adjust_all(
                next,
                next_copied,
                words.skip(1),
                load_base,
            ),
            stop => stop,
        }
    }
}

/// None of the words overlaps the word at `other`.
pub open spec fn spares(words: Seq<u64>, other: u64) -> bool {
    forall|i: int| 0 <= i < words.len() ==> apart(#[trigger] words[i], other)
}

/// No two of the words overlap.
pub open spec fn separate(words: Seq<u64>) -> bool {
    forall|i: int, j: int|
        0 <= i < j < words.len() ==> apart(#[trigger] words[i], #[trigger] words[j])
}

/// Adding the load base to words that do not overlap adds it to each of them once, and every
/// other word keeps its value.
pub proof fn lemma_adjust_all<S: PageSize>(
    vm: Map<int, Cell<S>>,
    copied: Seq<u64>,
    words: Seq<u64>,
    load_base: i64,
)
    requires
        page_wise(vm),
    ensures
        adjust_all(vm, copied, words, load_base) matches Run::Done(Virtual { vm: after, .. }) ==> {
            &&& page_wise(after)
            &&& forall|other: u64|
                spares(words, other) ==> #[trigger] relocation::fetch(after, other)
                    == relocation::fetch(vm, other)
            &&& separate(words) ==> forall|i: int|
                0 <= i < words.len() ==> relocation::fetch(after, #[trigger] words[i])
                    == Fetch::Word(arith::rebased(word_at(vm, words[i]), load_base))
        },
    decreases words.len(),
{
    if words.len() > 0 {
        let addr = words[0];
        let rest = words.skip(1);
        let value = arith::rebased(word_at(vm, addr), load_base);
        match relocation::adjust(Virtual { vm, copied }, addr, load_base) {
            Run::Done(Virtual { vm: next, copied: next_copied }) => {
                assert(relocation::put(vm, copied, addr, value) == Run::Done(
                    Virtual { vm: next, copied: next_copied },
                ));
                lemma_written_word_is_read_back(vm, copied, addr, value);
                lemma_adjust_all(next, next_copied, rest, load_base);
                if let Run::Done(Virtual { vm: after, .. }) = adjust_all(
                    next,
                    next_copied,
                    rest,
                    load_base,
                ) {
                    assert forall|other: u64| spares(words, other) implies
                        #[trigger] relocation::fetch(after, other) == relocation::fetch(
                        vm,
                        other,
                    ) by {
                        assert(apart(words[0], other));
                        lemma_other_word_is_kept(vm, copied, addr, value, other);
                        assert forall|i: int| 0 <= i < rest.len() implies apart(
                            #[trigger] rest[i],
                            other,
                        ) by {
                            assert(apart(words[i + 1], other));
                        }
                        assert(spares(rest, other));
                    }
                    if separate(words) {
                        assert forall|i: int| 0 <= i < rest.len() implies apart(
                            #[trigger] rest[i],
                            addr,
                        ) by {
                            assert(apart(words[0], words[i + 1]));
                        }
                        assert(spares(rest, addr));
                        assert forall|i: int, j: int| 0 <= i < j < rest.len() implies apart(
                            #[trigger] rest[i],
                            #[trigger] rest[j],
                        ) by {
                            assert(apart(words[i + 1], words[j + 1]));
                        }
                        assert forall|i: int| 0 <= i < words.len() implies relocation::fetch(
                            after,
                            #[trigger] words[i],
                        ) == Fetch::Word(
                            arith::rebased(word_at(vm, words[i]), load_base),
                        ) by {
                            if i > 0 {
                                assert(rest[i - 1] == words[i]);
                                assert(apart(words[0], words[i]));
                                lemma_other_word_is_kept(vm, copied, addr, value, words[i]);
                            }
                        }
                    }
                }
            },
            _ => {},
        }
    }
}

/// Adding the load base to two lists of words in turn is adding it to both together.
proof fn lemma_adjust_concat<S: PageSize>(
    vm: Map<int, Cell<S>>,
    copied: Seq<u64>,
    first: Seq<u64>,
    second: Seq<u64>,
    load_base: i64,
)
    ensures
        adjust_all(vm, copied, first + second, load_base) == match adjust_all(
            vm,
            copied,
            first,
            load_base,
        ) {
            Run::Done(Virtual { vm: next, copied: next_copied }) => adjust_all(
                next,
                next_copied,
                second,
                load_base,
            ),
            stop => stop,
        },
    decreases first.len(),
{
    if first.len() == 0 {
        assert(first + second =~= second);
    } else {
        assert((first + second).skip(1) =~= first.skip(1) + second);
        match relocation::adjust(Virtual { vm, copied }, first[0], load_base) {
            Run::Done(Virtual { vm: next, copied: next_copied }) => {
                lemma_adjust_concat(next, next_copied, first.skip(1), second, load_base);
            },
            _ => {},
        }
    }
}

/// The words that a bitmap names, the lowest bit first.
pub open spec fn bitmap_words(addr: u64, bitmap: u64) -> Seq<u64>
    decreases bitmap,
{
    if bitmap == 0 {
        Seq::empty()
    } else {
        let rest = bitmap_words(arith::wrapped_sum(addr, 8), bitmap / 2);
        if bitmap % 2 == 0 {
            rest
        } else {
            seq![addr] + rest
        }
    }
}

/// Applying a bitmap adds the load base to the words that it names.
proof fn lemma_bitmap<S: PageSize>(
    vm: Map<int, Cell<S>>,
    copied: Seq<u64>,
    addr: u64,
    bitmap: u64,
    load_base: i64,
)
    ensures
        relocation::bitmap_run(Virtual { vm, copied }, addr, bitmap, load_base) == adjust_all(
            vm,
            copied,
            bitmap_words(addr, bitmap),
            load_base,
        ),
    decreases bitmap,
{
    let next_addr = arith::wrapped_sum(addr, 8);
    if bitmap != 0 {
        let rest = bitmap_words(next_addr, bitmap / 2);
        if bitmap % 2 == 0 {
            lemma_bitmap(vm, copied, next_addr, bitmap / 2, load_base);
        } else {
            assert((seq![addr] + rest).skip(1) =~= rest);
            match relocation::adjust(Virtual { vm, copied }, addr, load_base) {
                Run::Done(Virtual { vm: next, copied: next_copied }) => {
                    lemma_bitmap(next, next_copied, next_addr, bitmap / 2, load_base);
                },
                _ => {},
            }
        }
    }
}

/// The address of a RELR entry.
pub open spec fn relr_entry(table: u64, number: int) -> u64 {
    arith::wrapped_sum(table, number * 8)
}

/// The words that one RELR entry names.
pub open spec fn relr_entry_words(entry: u64, base: u64, load_base: i64) -> Seq<u64> {
    if entry % 2 == 0 {
        seq![arith::rebased(entry, load_base)]
    } else {
        bitmap_words(base, entry / 2)
    }
}

/// The words that the RELR entries from number `first` on name.
pub open spec fn relr_words<S: PageSize>(
    vm: Map<int, Cell<S>>,
    base: u64,
    table: u64,
    first: int,
    count: int,
    load_base: i64,
) -> Seq<u64>
    decreases count - first,
{
    if first >= count {
        Seq::empty()
    } else {
        let entry = word_at(vm, relr_entry(table, first));
        relr_entry_words(entry, base, load_base) + relr_words(
            vm,
            relocation::relr_next_base(entry, base, load_base),
            table,
            first + 1,
            count,
            load_base,
        )
    }
}

/// The words that a RELR table names depend on the table alone.
proof fn lemma_same_relr_words<S: PageSize>(
    vm: Map<int, Cell<S>>,
    other: Map<int, Cell<S>>,
    base: u64,
    table: u64,
    first: int,
    count: int,
    load_base: i64,
)
    requires
        forall|i: int|
            first <= i < count ==> relocation::fetch(other, #[trigger] relr_entry(table, i))
                == relocation::fetch(vm, relr_entry(table, i)),
    ensures
        relr_words(other, base, table, first, count, load_base) == relr_words(
            vm,
            base,
            table,
            first,
            count,
            load_base,
        ),
    decreases count - first,
{
    if first < count {
        let entry = word_at(vm, relr_entry(table, first));
        assert(word_at(other, relr_entry(table, first)) == entry);
        lemma_same_relr_words(
            vm,
            other,
            relocation::relr_next_base(entry, base, load_base),
            table,
            first + 1,
            count,
            load_base,
        );
    }
}

/// A RELR table that names no word of itself adds the load base to the words that it names.
/// With [`lemma_adjust_all`], each of them is the word from before plus the load base.
pub proof fn lemma_relr_relocates<S: PageSize>(
    vm: Map<int, Cell<S>>,
    copied: Seq<u64>,
    base: u64,
    table: u64,
    first: int,
    count: int,
    load_base: i64,
)
    requires
        page_wise(vm),
        forall|i: int|
            first <= i < count ==> spares(
                relr_words(vm, base, table, first, count, load_base),
                #[trigger] relr_entry(table, i),
            ),
    ensures
        ({
            let run = relocation::relr_run(
                Virtual { vm, copied },
                base,
                table,
                first,
                count,
                load_base,
            );
            run is Done || (forall|i: int|
                first <= i < count ==> relocation::fetch(vm, #[trigger] relr_entry(table, i)) is Word)
                ==> run == adjust_all(
                vm,
                copied,
                relr_words(vm, base, table, first, count, load_base),
                load_base,
            )
        }),
    decreases count - first,
{
    if first < count {
        let entry = word_at(vm, relr_entry(table, first));
        let words = relr_words(vm, base, table, first, count, load_base);
        let now = relr_entry_words(entry, base, load_base);
        let next_base = relocation::relr_next_base(entry, base, load_base);
        let later = relr_words(vm, next_base, table, first + 1, count, load_base);
        let step = adjust_all(vm, copied, now, load_base);
        assert(words == now + later);
        lemma_adjust_concat(vm, copied, now, later, load_base);
        if entry % 2 != 0 {
            lemma_bitmap(vm, copied, base, entry / 2, load_base);
        } else {
            assert(now.skip(1) =~= Seq::empty());
            reveal_with_fuel(adjust_all, 2);
        }
        lemma_adjust_all(vm, copied, now, load_base);
        if let Run::Done(Virtual { vm: next, copied: next_copied }) = step {
            assert forall|i: int| first + 1 <= i < count implies relocation::fetch(
                next,
                #[trigger] relr_entry(table, i),
            ) == relocation::fetch(vm, relr_entry(table, i)) by {
                assert(spares(words, relr_entry(table, i)));
                assert forall|k: int| 0 <= k < now.len() implies apart(
                    #[trigger] now[k],
                    relr_entry(table, i),
                ) by {
                    assert(words[k] == now[k]);
                }
                assert(spares(now, relr_entry(table, i)));
            }
            lemma_same_relr_words(vm, next, next_base, table, first + 1, count, load_base);
            assert forall|i: int| first + 1 <= i < count implies spares(
                later,
                #[trigger] relr_entry(table, i),
            ) by {
                assert(spares(words, relr_entry(table, i)));
                assert forall|k: int| 0 <= k < later.len() implies apart(
                    #[trigger] later[k],
                    relr_entry(table, i),
                ) by {
                    assert(words[now.len() + k] == later[k]);
                }
            }
            lemma_relr_relocates(
                next,
                next_copied,
                next_base,
                table,
                first + 1,
                count,
                load_base,
            );
        }
    }
}

/// Virtual memory shows a LOAD segment: the bytes of the file at the segment's address, zeros
/// behind them up to its size in memory, all with the segment's flags.
pub open spec fn segment_shown<S: PageSize>(
    vm: Map<int, Cell<S>>,
    image: Map<int, u8>,
    phdr: ProgramHeader,
    kernel_phys_base: PhysAddr,
    load_base: i64,
) -> bool {
    let virt = elf_loading::segment_virt(phdr, load_base);
    &&& forall|v: int|
        virt <= v < virt + phdr.p_filesz ==> {
            &&& #[trigger] vm.contains_key(v)
            &&& vm[v].byte == image[kernel_phys_base.0 + phdr.p_offset + (v - virt)]
            &&& vm[v].flags == elf_loading::segment_flags(phdr.p_flags)
        }
    &&& forall|v: int|
        virt + phdr.p_filesz <= v < virt + phdr.p_memsz ==> {
            &&& #[trigger] vm.contains_key(v)
            &&& vm[v].byte == 0
            &&& vm[v].flags == elf_loading::segment_flags(phdr.p_flags)
        }
}

/// A segment's place in the file and in memory have the same distance to a page boundary, as
/// the ELF format demands.
pub open spec fn congruent<S: PageSize>(
    phdr: ProgramHeader,
    kernel_phys_base: PhysAddr,
    load_base: i64,
) -> bool {
    elf_loading::segment_virt(phdr, load_base) as int % paging::base::<S>() == (kernel_phys_base.0
        + phdr.p_offset) % paging::base::<S>()
}

/// The first address of the pages of a segment.
pub open spec fn span_start<S: PageSize>(phdr: ProgramHeader, load_base: i64) -> int {
    arith::floor_to(
        elf_loading::segment_virt(phdr, load_base) as int,
        paging::base::<S>(),
    )
}

/// The end of the pages of a segment.
pub open spec fn span_end<S: PageSize>(phdr: ProgramHeader, load_base: i64) -> int {
    let virt = elf_loading::segment_virt(phdr, load_base);
    arith::ceil_to(
        if phdr.p_memsz > phdr.p_filesz {
            virt + phdr.p_memsz
        } else {
            virt + phdr.p_filesz
        },
        paging::base::<S>(),
    )
}

/// The pages that a mapping plan adds keep memory page-wise.
proof fn lemma_union_page_wise<S: PageSize>(first: Map<int, Cell<S>>, second: Map<int, Cell<S>>)
    requires
        page_wise(first),
        page_wise(second),
    ensures
        page_wise(first.union_prefer_right(second)),
{
    let both = first.union_prefer_right(second);
    let b = paging::base::<S>();
    assert forall|page: int, v: int| page % b == 0 && page <= v < page + b implies
        #[trigger] both.contains_key(page) == #[trigger] both.contains_key(v) by {
        assert(first.contains_key(page) == first.contains_key(v));
        assert(second.contains_key(page) == second.contains_key(v));
    }
}

/// Whole pages of zeros are page-wise.
pub proof fn lemma_zeros_page_wise<S: PageSize>(lo: int, hi: int, flags: PageFlags)
    requires
        paging::base::<S>() > 0,
        lo % paging::base::<S>() == 0,
        hi % paging::base::<S>() == 0,
    ensures
        page_wise(paging::zero_cells::<S>(lo, hi, flags)),
{
    let b = paging::base::<S>();
    let cells = paging::zero_cells::<S>(lo, hi, flags);
    assert forall|page: int, v: int| page % b == 0 && page <= v < page + b implies
        #[trigger] cells.contains_key(page) == #[trigger] cells.contains_key(v) by {
        if page < lo <= v {
            arith::lemma_multiples_apart(page, lo, b);
        }
        if page < hi <= v {
            arith::lemma_multiples_apart(page, hi, b);
        }
    }
}

/// The file part of a segment: its pages show the file, and nothing else changes.
pub proof fn lemma_file_part<S: PageSize>(
    vm: Map<int, Cell<S>>,
    image: Map<int, u8>,
    phdr: ProgramHeader,
    kernel_phys_base: PhysAddr,
    load_base: i64,
    use_huge_pages: bool,
)
    requires
        mapping::valid_sizes::<S>(),
        page_wise(vm),
        phdr.p_filesz > 0,
        elf_loading::load_in_range::<S>(phdr, kernel_phys_base, load_base),
    ensures
        ({
            let plan = paging::virtual_memory(
                elf_loading::file_plan::<S>(phdr, kernel_phys_base, load_base, use_huge_pages),
                image,
            );
            let virt = elf_loading::segment_virt(phdr, load_base);
            let lo = span_start::<S>(phdr, load_base);
            let hi = lo + elf_loading::file_pages_len::<S>(phdr, load_base);
            let phys = elf_loading::file_frames_start::<S>(phdr, kernel_phys_base);
            &&& page_wise(plan)
            &&& forall|v: int| #[trigger] plan.contains_key(v) == (lo <= v < hi)
            &&& forall|v: int|
                lo <= v < hi ==> (#[trigger] plan[v]).byte == image[phys + (v - lo)]
                    && plan[v].flags == elf_loading::segment_flags(phdr.p_flags)
            &&& lo <= virt
            &&& virt + phdr.p_filesz <= hi
            &&& hi == arith::ceil_to(virt + phdr.p_filesz, paging::base::<S>())
        }),
{
    let b = paging::base::<S>();
    let virt = elf_loading::segment_virt(phdr, load_base);
    let lo = span_start::<S>(phdr, load_base);
    let last = arith::floor_to(virt + phdr.p_filesz - 1, b);
    let len = elf_loading::file_pages_len::<S>(phdr, load_base);
    let phys = elf_loading::file_frames_start::<S>(phdr, kernel_phys_base);
    let entries = elf_loading::file_plan::<S>(phdr, kernel_phys_base, load_base, use_huge_pages);
    arith::lemma_floor_facts(virt as int, b);
    arith::lemma_floor_facts(virt + phdr.p_filesz - 1, b);
    arith::lemma_floor_facts(kernel_phys_base.0 + phdr.p_offset, b);
    arith::lemma_ceil_facts(virt + phdr.p_filesz, b);
    if last < lo {
        arith::lemma_multiples_apart(last, lo, b);
    }
    vstd::arithmetic::div_mod::lemma_mod_self_0(b);
    arith::lemma_multiples_add(last, lo, b);
    arith::lemma_multiples_add(last - lo, b, b);
    arith::lemma_multiples_add(last, b, b);
    arith::lemma_ceil_facts(len, b);
    arith::lemma_aligned_block_fits(last as u64, b as u64);
    if last + b != arith::ceil_to(virt + phdr.p_filesz, b) {
        arith::lemma_multiples_apart(last + b, arith::ceil_to(virt + phdr.p_filesz, b), b);
    }
    mapping::lemma_plan::<S>(
        lo,
        phys,
        len,
        elf_loading::segment_flags(phdr.p_flags),
        use_huge_pages,
    );
    lemma_page_wise(entries, image);
    let plan = paging::virtual_memory(entries, image);
    assert forall|v: int| #[trigger] plan.contains_key(v) == (lo <= v < lo + len) by {
        assert(paging::mapped(entries, v) == (lo <= v < lo + len));
    }
    assert forall|v: int| lo <= v < lo + len implies (#[trigger] plan[v]).byte == image[phys + (v
        - lo)] && plan[v].flags == elf_loading::segment_flags(phdr.p_flags) by {
        assert(plan.contains_key(v));
        assert(paging::phys_at(entries, v) == phys + (v - lo));
        assert(entries[paging::page_at(entries, v)].flags == elf_loading::segment_flags(
            phdr.p_flags,
        ));
    }
}

/// Once a LOAD segment is loaded, memory shows it, and nothing outside its pages changes.
pub proof fn lemma_segment_is_shown<S: PageSize>(
    vm: Map<int, Cell<S>>,
    image: Map<int, u8>,
    phdr: ProgramHeader,
    kernel_phys_base: PhysAddr,
    load_base: i64,
    use_huge_pages: bool,
)
    requires
        mapping::valid_sizes::<S>(),
        page_wise(vm),
        elf_loading::load_in_range::<S>(phdr, kernel_phys_base, load_base),
        congruent::<S>(phdr, kernel_phys_base, load_base),
    ensures
        elf_loading::load_segment_run(
            vm,
            image,
            phdr,
            kernel_phys_base,
            load_base,
            use_huge_pages,
        ) matches Run::Done(Virtual { vm: after, .. }) ==> {
            &&& segment_shown(after, image, phdr, kernel_phys_base, load_base)
            &&& page_wise(after)
            &&& forall|v: int|
                !(span_start::<S>(phdr, load_base) <= v < span_end::<S>(phdr, load_base))
                    ==> #[trigger] after.contains_key(v) == vm.contains_key(v)
            &&& forall|v: int|
                !(span_start::<S>(phdr, load_base) <= v < span_end::<S>(phdr, load_base))
                    && vm.contains_key(v) ==> #[trigger] after[v] == vm[v]
        },
{
    let b = paging::base::<S>();
    let virt = elf_loading::segment_virt(phdr, load_base);
    let flags = elf_loading::segment_flags(phdr.p_flags);
    let lo = span_start::<S>(phdr, load_base);
    let hi = span_end::<S>(phdr, load_base);
    arith::lemma_floor_facts(virt as int, b);
    arith::lemma_ceil_facts(virt + phdr.p_filesz, b);
    arith::lemma_ceil_facts(virt + phdr.p_memsz, b);
    arith::lemma_floor_facts(virt + phdr.p_filesz, b);
    let plan = paging::virtual_memory(
        elf_loading::file_plan::<S>(phdr, kernel_phys_base, load_base, use_huge_pages),
        image,
    );
    let with_file = if phdr.p_filesz > 0 {
        lemma_file_part(vm, image, phdr, kernel_phys_base, load_base, use_huge_pages);
        lemma_union_page_wise(vm, plan);
        vm.union_prefer_right(plan)
    } else {
        vm
    };
    let start = virt + phdr.p_filesz;
    let end = virt + phdr.p_memsz;
    let page = arith::floor_to(start, b);
    let first_free = arith::ceil_to(start, b);
    let phys = elf_loading::file_frames_start::<S>(phdr, kernel_phys_base);
    assert(phdr.p_filesz > 0 ==> forall|v: int|
        virt <= v < start ==> {
            &&& #[trigger] with_file.contains_key(v)
            &&& with_file[v].byte == image[kernel_phys_base.0 + phdr.p_offset + (v - virt)]
            &&& with_file[v].flags == flags
        }) by {
        if phdr.p_filesz > 0 {
            assert forall|v: int| virt <= v < start implies #[trigger] with_file.contains_key(v)
                && with_file[v].byte == image[kernel_phys_base.0 + phdr.p_offset + (v - virt)]
                && with_file[v].flags == flags by {
                assert(plan.contains_key(v));
                assert(with_file[v] == plan[v]);
                assert(phys + (v - lo) == kernel_phys_base.0 + phdr.p_offset + (v - virt));
            }
        }
    }
    if phdr.p_memsz > phdr.p_filesz {
        if start % b == 0 || with_file.contains_key(page) {
            let rest = elf_loading::zero_tail(with_file, start, flags);
            let zeros = paging::zero_cells::<S>(first_free, arith::ceil_to(end, b), flags);
            let after = rest.union_prefer_right(zeros);
            lemma_zeros_page_wise::<S>(first_free, arith::ceil_to(end, b), flags);
            assert(forall|v: int| #[trigger] rest.contains_key(v) == with_file.contains_key(v));
            assert(page_wise(rest)) by {
                assert forall|p: int, v: int| p % b == 0 && p <= v < p + b implies
                    #[trigger] rest.contains_key(p) == #[trigger] rest.contains_key(v) by {
                    assert(with_file.contains_key(p) == with_file.contains_key(v));
                }
            }
            lemma_union_page_wise(rest, zeros);
            if first_free > arith::ceil_to(end, b) {
                arith::lemma_multiples_apart(first_free, arith::ceil_to(end, b), b);
            }
            if start % b != 0 {
                assert(first_free == page + b);
                if page < lo {
                    arith::lemma_multiples_apart(page, lo, b);
                }
            }
            assert forall|v: int| start <= v < end implies #[trigger] after.contains_key(v)
                && after[v].byte == 0 && after[v].flags == flags by {
                if v < first_free {
                    assert(with_file.contains_key(page) == with_file.contains_key(v));
                    assert(!zeros.contains_key(v));
                    assert(after[v] == rest[v]);
                } else {
                    assert(zeros.contains_key(v));
                }
            }
            assert forall|v: int| virt <= v < start implies #[trigger] after.contains_key(v)
                && after[v].byte == image[kernel_phys_base.0 + phdr.p_offset + (v - virt)]
                && after[v].flags == flags by {
                assert(with_file.contains_key(v));
                assert(!zeros.contains_key(v));
                assert(after[v] == rest[v]);
            }
            assert forall|v: int| !(lo <= v < hi) implies #[trigger] after.contains_key(v)
                == vm.contains_key(v) by {}
            assert forall|v: int| !(lo <= v < hi) && vm.contains_key(v) implies
                #[trigger] after[v] == vm[v] by {
                assert(after.contains_key(v) == vm.contains_key(v));
                assert(!zeros.contains_key(v));
                assert(after[v] == rest[v]);
                assert(rest[v] == with_file[v]);
            }
        }
    }
}

/// The LOAD segments from number `first` on can be loaded, and no two of them share a page.
pub open spec fn segments_apart<S: PageSize>(
    segments: Seq<ProgramHeader>,
    first: int,
    kernel_phys_base: PhysAddr,
    load_base: i64,
) -> bool {
    &&& forall|i: int|
        first <= i < segments.len() && (#[trigger] segments[i]).p_type == PT_LOAD ==> {
            &&& elf_loading::load_in_range::<S>(segments[i], kernel_phys_base, load_base)
            &&& congruent::<S>(segments[i], kernel_phys_base, load_base)
        }
    &&& forall|i: int, j: int|
        first <= i < j < segments.len() && (#[trigger] segments[i]).p_type == PT_LOAD && (
        #[trigger] segments[j]).p_type == PT_LOAD ==> {
            ||| span_end::<S>(segments[i], load_base) <= span_start::<S>(segments[j], load_base)
            ||| span_end::<S>(segments[j], load_base) <= span_start::<S>(segments[i], load_base)
        }
}

/// No LOAD segment from number `first` on has a page with the address `v`.
pub open spec fn outside_segments<S: PageSize>(
    segments: Seq<ProgramHeader>,
    first: int,
    load_base: i64,
    v: int,
) -> bool {
    forall|i: int|
        first <= i < segments.len() && (#[trigger] segments[i]).p_type == PT_LOAD ==> !(
        span_start::<S>(segments[i], load_base) <= v < span_end::<S>(segments[i], load_base))
}

/// Once all LOAD segments are loaded, memory shows each of them, and nothing outside their
/// pages changes.
pub proof fn lemma_segments_are_shown<S: PageSize>(
    vm: Map<int, Cell<S>>,
    image: Map<int, u8>,
    segments: Seq<ProgramHeader>,
    first: int,
    kernel_phys_base: PhysAddr,
    load_base: i64,
    use_huge_pages: bool,
)
    requires
        mapping::valid_sizes::<S>(),
        page_wise(vm),
        0 <= first,
        segments_apart::<S>(segments, first, kernel_phys_base, load_base),
    ensures
        elf_loading::load_run(
            vm,
            image,
            segments,
            first,
            kernel_phys_base,
            load_base,
            use_huge_pages,
        ) matches Run::Done(Virtual { vm: after, .. }) ==> {
            &&& page_wise(after)
            &&& forall|i: int|
                first <= i < segments.len() && (#[trigger] segments[i]).p_type == PT_LOAD
                    ==> segment_shown(after, image, segments[i], kernel_phys_base, load_base)
            &&& forall|v: int|
                outside_segments::<S>(segments, first, load_base, v)
                    ==> #[trigger] after.contains_key(v) == vm.contains_key(v)
            &&& forall|v: int|
                outside_segments::<S>(segments, first, load_base, v) && vm.contains_key(v)
                    ==> #[trigger] after[v] == vm[v]
        },
    decreases segments.len() - first,
{
    if first < segments.len() {
        let phdr = segments[first];
        let is_load = phdr.p_type == PT_LOAD;
        let run = elf_loading::load_segment_run(
            vm,
            image,
            phdr,
            kernel_phys_base,
            load_base,
            use_huge_pages,
        );
        let next = if is_load {
            match run {
                Run::Done(Virtual { vm: next, .. }) => next,
                _ => vm,
            }
        } else {
            vm
        };
        if is_load {
            lemma_segment_is_shown(
                vm,
                image,
                phdr,
                kernel_phys_base,
                load_base,
                use_huge_pages,
            );
        }
        lemma_segments_are_shown(
            next,
            image,
            segments,
            first + 1,
            kernel_phys_base,
            load_base,
            use_huge_pages,
        );
        let rest = elf_loading::load_run(
            next,
            image,
            segments,
            first + 1,
            kernel_phys_base,
            load_base,
            use_huge_pages,
        );
        if !is_load || run is Done {
            if let Run::Done(Virtual { vm: after, .. }) = rest {
                if is_load {
                    lemma_span_holds_segment::<S>(phdr, load_base);
                    lemma_shown_kept(
                        segments,
                        first,
                        next,
                        after,
                        image,
                        kernel_phys_base,
                        load_base,
                    );
                }
                assert forall|v: int|
                    outside_segments::<S>(segments, first, load_base, v) implies
                    #[trigger] after.contains_key(v) == vm.contains_key(v) by {
                    assert(outside_segments::<S>(segments, first + 1, load_base, v));
                    assert(segments[first] == phdr);
                    assert(next.contains_key(v) == vm.contains_key(v));
                }
                assert forall|v: int|
                    outside_segments::<S>(segments, first, load_base, v) && vm.contains_key(
                        v,
                    ) implies #[trigger] after[v] == vm[v] by {
                    assert(outside_segments::<S>(segments, first + 1, load_base, v));
                    assert(segments[first] == phdr);
                    assert(next.contains_key(v) == vm.contains_key(v));
                    assert(next[v] == vm[v]);
                }
            }
        }
    }
}

/// All addresses of a segment lie in its pages.
proof fn lemma_span_holds_segment<S: PageSize>(phdr: ProgramHeader, load_base: i64)
    requires
        paging::base::<S>() > 0,
    ensures
        ({
            let virt = elf_loading::segment_virt(phdr, load_base);
            &&& span_start::<S>(phdr, load_base) <= virt
            &&& virt + phdr.p_filesz <= span_end::<S>(phdr, load_base)
            &&& virt + phdr.p_memsz <= span_end::<S>(phdr, load_base)
        }),
{
    let b = paging::base::<S>();
    let virt = elf_loading::segment_virt(phdr, load_base);
    arith::lemma_floor_facts(virt as int, b);
    arith::lemma_ceil_facts(virt + phdr.p_filesz, b);
    arith::lemma_ceil_facts(virt + phdr.p_memsz, b);
}

/// A segment that is shown stays so while nothing outside the pages of other segments changes.
proof fn lemma_shown_kept<S: PageSize>(
    segments: Seq<ProgramHeader>,
    first: int,
    next: Map<int, Cell<S>>,
    after: Map<int, Cell<S>>,
    image: Map<int, u8>,
    kernel_phys_base: PhysAddr,
    load_base: i64,
)
    requires
        paging::base::<S>() > 0,
        0 <= first < segments.len(),
        segments[first].p_type == PT_LOAD,
        segments_apart::<S>(segments, first, kernel_phys_base, load_base),
        segment_shown(next, image, segments[first], kernel_phys_base, load_base),
        forall|v: int|
            outside_segments::<S>(segments, first + 1, load_base, v)
                ==> #[trigger] after.contains_key(v) == next.contains_key(v),
        forall|v: int|
            outside_segments::<S>(segments, first + 1, load_base, v) && next.contains_key(v)
                ==> #[trigger] after[v] == next[v],
    ensures
        segment_shown(after, image, segments[first], kernel_phys_base, load_base),
{
    let phdr = segments[first];
    let virt = elf_loading::segment_virt(phdr, load_base);
    lemma_span_holds_segment::<S>(phdr, load_base);
    assert forall|v: int|
        virt <= v < virt + phdr.p_filesz || virt <= v < virt + phdr.p_memsz implies
        #[trigger] after.contains_key(v) == next.contains_key(v) && (next.contains_key(v)
        ==> after[v] == next[v]) by {
        assert(outside_segments::<S>(segments, first + 1, load_base, v)) by {
            assert forall|j: int|
                first + 1 <= j < segments.len() && (#[trigger] segments[j]).p_type
                    == PT_LOAD implies !(span_start::<S>(segments[j], load_base) <= v < span_end::<
                S,
            >(segments[j], load_base)) by {
                assert(segments[first].p_type == PT_LOAD);
            }
        }
    }
    assert forall|v: int| virt <= v < virt + phdr.p_filesz implies #[trigger] after.contains_key(v)
        && after[v].byte == image[kernel_phys_base.0 + phdr.p_offset + (v - virt)]
        && after[v].flags == elf_loading::segment_flags(phdr.p_flags) by {
        assert(next.contains_key(v));
    }
    assert forall|v: int| virt + phdr.p_filesz <= v < virt + phdr.p_memsz implies
        #[trigger] after.contains_key(v) && after[v].byte == 0 && after[v].flags
        == elf_loading::segment_flags(phdr.p_flags) by {
        assert(next.contains_key(v));
    }
}

/// Protecting RELRO segments takes the write permission from their pages and changes nothing
/// else.
pub proof fn lemma_relro_is_protected<S: PageSize>(
    vm: Map<int, Cell<S>>,
    segments: Seq<ProgramHeader>,
    first: int,
    load_base: i64,
)
    requires
        0 <= first,
    ensures
        ({
            let after = elf_loading::relro_vm(vm, segments, first, load_base);
            &&& same_bytes(vm, after)
            &&& forall|v: int|
                vm.contains_key(v) ==> (#[trigger] after[v]).flags.executable
                    == vm[v].flags.executable && after[v].size == vm[v].size && (
                after[v].flags.writable ==> vm[v].flags.writable)
            &&& forall|i: int, v: int|
                #![trigger segments[i], after[v]]
                first <= i < segments.len() && segments[i].p_type == PT_GNU_RELRO
                    && elf_loading::relro_start::<S>(segments[i], load_base) <= v
                    < elf_loading::relro_end::<S>(segments[i], load_base) && vm.contains_key(v)
                    ==> !after[v].flags.writable
        }),
    decreases segments.len() - first,
{
    if first < segments.len() {
        let next = if segments[first].p_type == PT_GNU_RELRO {
            elf_loading::protected(
                vm,
                elf_loading::relro_start::<S>(segments[first], load_base),
                elf_loading::relro_end::<S>(segments[first], load_base),
            )
        } else {
            vm
        };
        lemma_relro_is_protected(next, segments, first + 1, load_base);
        let after = elf_loading::relro_vm(next, segments, first + 1, load_base);
        assert(elf_loading::relro_vm(vm, segments, first, load_base) == after);
        assert forall|v: int| #[trigger] next.contains_key(v) == vm.contains_key(v) by {}
        assert forall|v: int| #[trigger] after.contains_key(v) == vm.contains_key(v) by {
            assert(after.contains_key(v) == next.contains_key(v));
        }
        assert forall|v: int| vm.contains_key(v) implies #[trigger] after[v].byte
            == vm[v].byte by {
            assert(next.contains_key(v));
            assert(after[v].byte == next[v].byte);
        }
        assert forall|v: int| vm.contains_key(v) implies (#[trigger] after[v]).flags.executable
            == vm[v].flags.executable && after[v].size == vm[v].size && (after[v].flags.writable
            ==> vm[v].flags.writable) by {
            assert(next.contains_key(v));
        }
        assert forall|i: int, v: int|
            #![trigger segments[i], after[v]]
            first <= i < segments.len() && segments[i].p_type == PT_GNU_RELRO
                && elf_loading::relro_start::<S>(segments[i], load_base) <= v
                < elf_loading::relro_end::<S>(segments[i], load_base) && vm.contains_key(
                v,
            ) implies !after[v].flags.writable by {
            assert(next.contains_key(v));
        }
    }
}

/// The TLS template of a file is that of its first TLS segment.
pub proof fn lemma_first_tls(segments: Seq<ProgramHeader>, count: int, load_base: i64)
    requires
        0 <= count <= segments.len(),
    ensures
        match elf_loading::first_tls(segments, count, load_base) {
            Some(template) => exists|i: int|
                {
                    &&& 0 <= i < count
                    &&& (#[trigger] segments[i]).p_type == PT_TLS
                    &&& template == elf_loading::tls_template(segments[i], load_base)
                    &&& forall|j: int| 0 <= j < i ==> (#[trigger] segments[j]).p_type != PT_TLS
                },
            None => forall|i: int| 0 <= i < count ==> (#[trigger] segments[i]).p_type != PT_TLS,
        },
    decreases count,
{
    if count > 0 {
        lemma_first_tls(segments, count - 1, load_base);
    }
}

/// A file that loads has at most one TLS segment.
pub proof fn lemma_one_tls_segment<S: PageSize>(
    vm: Map<int, Cell<S>>,
    image: Map<int, u8>,
    segments: Seq<ProgramHeader>,
    first: int,
    kernel_phys_base: PhysAddr,
    load_base: i64,
    use_huge_pages: bool,
)
    requires
        0 <= first <= segments.len(),
        elf_loading::load_run(
            vm,
            image,
            segments,
            first,
            kernel_phys_base,
            load_base,
            use_huge_pages,
        ) is Done,
    ensures
        forall|i: int, j: int|
            0 <= i < j < segments.len() && first <= j && (#[trigger] segments[i]).p_type == PT_TLS
                ==> (#[trigger] segments[j]).p_type != PT_TLS,
    decreases segments.len() - first,
{
    if first < segments.len() {
        let next = if segments[first].p_type == PT_LOAD {
            match elf_loading::load_segment_run(
                vm,
                image,
                segments[first],
                kernel_phys_base,
                load_base,
                use_huge_pages,
            ) {
                Run::Done(Virtual { vm: next, .. }) => next,
                _ => vm,
            }
        } else {
            vm
        };
        lemma_one_tls_segment(
            next,
            image,
            segments,
            first + 1,
            kernel_phys_base,
            load_base,
            use_huge_pages,
        );
        lemma_first_tls(segments, first, load_base);
    }
}

/// A kernel with fixed addresses is not moved: its load base is zero, and every address of the
/// file stays as it is.
pub proof fn lemma_exec_is_not_moved<S: PageSize>(
    elf: ElfView,
    regions: Seq<(u64, u64)>,
    placement: KernelPlacement,
    rng: Option<u64>,
)
    requires
        elf.header.e_type == ET_EXEC,
    ensures
        loader::kernel_plan::<S>(elf, regions, placement, rng) matches Ok((load_base, _)) ==> {
            &&& load_base == 0
            &&& forall|addr: u64| #[trigger] arith::rebased(addr, load_base) == addr
        },
{
}

/// Reading a word as a signed number changes it by a multiple of the address space only.
pub proof fn lemma_signed_move(addr: u64, from: u64, offset: i64)
    requires
        offset == arith::signed(addr) - arith::signed(from),
    ensures
        arith::rebased(from, offset) == addr,
{
    let n = arith::address_space_size();
    let sum = from + offset;
    let turns: int = if sum == addr {
        0
    } else if sum == addr + n {
        1
    } else {
        -1
    };
    vstd::arithmetic::div_mod::lemma_fundamental_div_mod_converse(sum, n, turns, addr as int);
}

/// A kernel that is placed automatically comes to lie where nothing was used, at the alignment
/// that it asks for and not at address zero, and its addresses are used from then on.
pub proof fn lemma_auto_placement<S: PageSize>(
    elf: ElfView,
    regions: Seq<(u64, u64)>,
    rng: Option<u64>,
)
    requires
        elf.header.e_type == ET_DYN,
        address_space::canonical(regions),
        loader::base_computable::<S>(elf, regions, KernelPlacement::Auto, rng),
        paging::base::<S>() > 0,
    ensures
        loader::kernel_base::<S>(
            elf,
            regions,
            KernelPlacement::Auto,
            rng,
        ) matches Ok((load_base, chosen)) ==> {
            &&& loader::memory_requirements(elf) matches Ok((size, align, min_addr))
            &&& {
                let start = arith::rebased(min_addr, load_base as i64);
                &&& 0 < start
                &&& start as int % align as int == 0
                &&& start + size <= u64::MAX
                &&& forall|v: int|
                    start <= v < start + size ==> !#[trigger] address_space::used(
                        regions,
                    ).contains(v)
                &&& forall|v: int|
                    start <= v < start + size ==> #[trigger] address_space::used(chosen).contains(v)
            }
        },
{
    match loader::kernel_base::<S>(elf, regions, KernelPlacement::Auto, rng) {
        Ok((load_base, chosen)) => {
            if let Ok((size, align, min_addr)) = loader::memory_requirements(elf) {
                let aligned_size = arith::ceil_to(size as int, paging::base::<S>()) as u64;
                arith::lemma_ceil_facts(size as int, paging::base::<S>());
                address_space::lemma_found_is_free(regions, aligned_size, align, rng);
                if let Some(addr) = address_space::free_address(
                    regions,
                    aligned_size,
                    align,
                    rng,
                ) {
                    lemma_signed_move(addr as u64, min_addr, load_base as i64);
                    address_space::lemma_marked(regions, addr as u64, aligned_size);
                }
            }
        },
        Err(_) => {},
    }
}

/// Loading a kernel, whether it succeeds or not, leaves a valid page table that maps no memory
/// which can still be handed out.
pub proof fn lemma_page_table_stays_valid<S: PageSize>(
    bytes: Seq<u8>,
    before: Snapshot<S>,
    regions: Seq<(u64, u64)>,
    kernel_phys_base: PhysAddr,
    placement: KernelPlacement,
    use_huge_pages: bool,
    rng: Option<u64>,
    after: Snapshot<S>,
    regions_after: Seq<(u64, u64)>,
    r: Result<LoadedKernel, LoadError>,
)
    requires
        before.sound(Seq::empty()),
        loader::file_loaded(
            bytes,
            before,
            regions,
            kernel_phys_base,
            placement,
            use_huge_pages,
            rng,
            after,
            regions_after,
            r,
        ),
    ensures
        after.sound(Seq::empty()),
{
}

/// Loading a kernel changes no byte of physical memory that could not be handed out before: the
/// file itself, among others, stays as it was.
pub proof fn lemma_file_is_unchanged<S: PageSize>(
    run: Run<Virtual<S>>,
    before: Snapshot<S>,
    after: Snapshot<S>,
    r: Result<(), LoadError>,
)
    requires
        relocation::ends_as(run, before, after, r),
        !(run is Crossing),
    ensures
        forall|a: int|
            !before.available.contains(a) ==> #[trigger] after.memory[a] == before.memory[a],
{
    assert(before.owned(Seq::empty()) =~= before.available);
}

/// A physical region that is mapped is seen at its virtual address, each byte at the same
/// distance from the start, with the flags that were asked for.
pub proof fn lemma_region_is_seen<S: PageSize>(
    before: Snapshot<S>,
    virt: VirtAddr,
    phys_start: PhysAddr,
    size: u64,
    flags: PageFlags,
    use_huge_pages: bool,
    after: Snapshot<S>,
)
    requires
        mapping::valid_sizes::<S>(),
        paging::wf_entries(before.entries),
        size > 0,
        virt.0 + arith::ceil_to(size as int, paging::base::<S>()) <= arith::address_space_size(),
        phys_start.0 + arith::ceil_to(size as int, paging::base::<S>())
            <= arith::address_space_size(),
        loader::region_mapped(
            before,
            virt,
            phys_start,
            size,
            flags,
            use_huge_pages,
            after,
            Ok(virt),
        ),
    ensures
        forall|v: int|
            virt.0 <= v < virt.0 + size ==> {
                &&& #[trigger] after.vm().contains_key(v)
                &&& after.vm()[v].byte == before.memory[phys_start.0 + (v - virt.0)]
                &&& after.vm()[v].flags == flags
            },
        forall|v: int| #[trigger]
            before.vm().contains_key(v) ==> after.vm().contains_key(v) && after.vm()[v]
                == before.vm()[v],
{
    let b = paging::base::<S>();
    let plan = mapping::page_plan::<S>(
        virt.0 as int,
        phys_start.0 as int,
        size as int,
        flags,
        use_huge_pages,
    );
    arith::lemma_ceil_facts(size as int, b);
    mapping::lemma_plan::<S>(
        virt.0 as int,
        phys_start.0 as int,
        size as int,
        flags,
        use_huge_pages,
    );
    assert forall|v: int| #[trigger] paging::mapped(before.entries, v) implies !paging::mapped(
        plan,
        v,
    ) by {}
    paging::lemma_union(before.entries, plan, before.memory);
    let seen = paging::virtual_memory(plan, before.memory);
    assert forall|v: int| virt.0 <= v < virt.0 + size implies #[trigger] after.vm().contains_key(v)
        && after.vm()[v].byte == before.memory[phys_start.0 + (v - virt.0)]
        && after.vm()[v].flags == flags by {
        assert(paging::mapped(plan, v));
        assert(seen.contains_key(v));
        assert(after.vm()[v] == seen[v]);
        assert(paging::phys_at(plan, v) == phys_start.0 + (v - virt.0));
        assert(plan[paging::page_at(plan, v)].flags == flags);
    }
    assert forall|v: int| #[trigger] before.vm().contains_key(v) implies after.vm().contains_key(
        v,
    ) && after.vm()[v] == before.vm()[v] by {
        assert(paging::mapped(before.entries, v));
        assert(!seen.contains_key(v));
    }
}

/// The pages of a LOAD segment without a zeroed part are backed by the frames of the kernel file
/// itself: nothing is copied, and no frame is taken but to store the page table.
pub proof fn lemma_file_pages_are_the_file<S: PageSize>(
    before: Snapshot<S>,
    phdr: ProgramHeader,
    kernel_phys_base: PhysAddr,
    load_base: i64,
    use_huge_pages: bool,
    after: Snapshot<S>,
)
    requires
        phdr.p_filesz > 0,
        phdr.p_memsz <= phdr.p_filesz,
        physical::tracks(
            |memory: Physical<S>|
                elf_loading::segment_step(
                    memory,
                    phdr,
                    kernel_phys_base,
                    load_base,
                    use_huge_pages,
                ),
            before,
            Seq::empty(),
            after,
            Seq::empty(),
            Ok(()),
        ),
    ensures
        after.entries == before.entries.union_prefer_right(
            elf_loading::file_plan(phdr, kernel_phys_base, load_base, use_huge_pages),
        ),
        after.memory == before.memory,
        before.quiet(after),
        before.only_tables(after),
{
    let run = |memory: Physical<S>|
        elf_loading::segment_step(memory, phdr, kernel_phys_base, load_base, use_huge_pages);
    let given = choose|given: Seq<Answer<S>>| #[trigger]
        physical::ends(run, before, Seq::empty(), given, after, Seq::empty(), Ok(()));
    let none = Seq::<Answer<S>>::empty();
    assert(run(physical::at(before, Seq::empty(), given + none)) == physical::ended(
        after,
        Seq::empty(),
        none,
        Ok(()),
    ));
    assert(traits::added(before.tables, after.tables) =~= (given + none)[0].tables);
}

/// Zeroed pages take one frame each.
proof fn lemma_zeroed_frames<S: PageSize>(
    memory: Physical<S>,
    page: int,
    end: int,
    flags: PageFlags,
    after: Physical<S>,
)
    requires
        paging::base::<S>() > 0,
        page <= end,
        (end - page) % paging::base::<S>() == 0,
        memory.with_zeroed_pages(page, end, flags) == Run::Done(after),
    ensures
        after.tables.len() >= memory.tables.len(),
        after.granted.len() == memory.granted.len() + (end - page) / paging::base::<S>() + (
        after.tables.len() - memory.tables.len()),
    decreases end - page,
{
    let b = paging::base::<S>();
    if page < end {
        let next = match memory.with_zeroed_page(page as u64, flags) {
            Run::Done(next) => next,
            _ => memory,
        };
        arith::lemma_multiples_add(end - page, b, b);
        vstd::arithmetic::div_mod::lemma_mod_self_0(b);
        if page + b > end {
            vstd::arithmetic::div_mod::lemma_small_mod((end - page) as nat, b as nat);
        }
        vstd::arithmetic::div_mod::lemma_mod_multiples_vanish(-1, end - page, b);
        vstd::arithmetic::div_mod::lemma_hoist_over_denominator(end - page - b, 1, b as nat);
        lemma_zeroed_frames(next, page + b, end, flags, after);
    } else {
        vstd::arithmetic::div_mod::lemma_basic_div(0, b);
    }
}

/// Allocated memory takes as many frames as it has pages, and none besides but those that store
/// the page table.
pub proof fn lemma_one_frame_for_each_page<S: PageSize>(
    before: Snapshot<S>,
    virt: VirtAddr,
    size: u64,
    flags: PageFlags,
    after: Snapshot<S>,
)
    requires
        loader::memory_mapped(before, virt, size, flags, after, Ok(virt)),
    ensures
        after.tables.len() >= before.tables.len(),
        after.granted.len() == before.granted.len() + arith::ceil_to(
            size as int,
            paging::base::<S>(),
        ) / paging::base::<S>() + (after.tables.len() - before.tables.len()),
{
    let b = paging::base::<S>();
    let end = virt.0 + arith::ceil_to(size as int, b);
    let run = zeroed::zeroed_run::<S>(virt.0 as int, end, flags);
    let given = choose|given: Seq<Answer<S>>| #[trigger]
        physical::ends(run, before, Seq::empty(), given, after, Seq::empty(), Ok(()));
    let none = Seq::<Answer<S>>::empty();
    let start = physical::at(before, Seq::empty(), given + none);
    assert(run(start) == physical::ended(after, Seq::empty(), none, Ok(())));
    arith::lemma_ceil_facts(size as int, b);
    lemma_zeroed_frames(
        start,
        virt.0 as int,
        end,
        flags,
        physical::at(after, Seq::empty(), none),
    );
}

/// An incomplete set of relocation tags is reported as such, and nothing changes.
pub proof fn lemma_incomplete_tags<S: PageSize>(
    before: Snapshot<S>,
    copied: Seq<u64>,
    entries: Seq<DynamicEntry>,
    load_base: i64,
    e_machine: u16,
    after: Snapshot<S>,
    copied_after: Seq<u64>,
    r: Result<(), LoadError>,
)
    requires
        ({
            let table = elf_loading::last_value(entries, DT_RELA);
            let size = elf_loading::last_value(entries, DT_RELASZ);
            let ent = elf_loading::last_value(entries, DT_RELAENT);
            if table is Some {
                size is None || ent is None
            } else {
                size is Some || ent is Some
            }
        }),
        physical::tracks(
            |memory: Physical<S>|
                elf_loading::dynamic_run(
                    memory,
                    DynamicView::Entries(entries),
                    load_base,
                    e_machine,
                ),
            before,
            copied,
            after,
            copied_after,
            r,
        ),
    ensures
        after == before,
        copied_after == copied,
        r == Err::<(), LoadError>(
            LoadError::InvalidElf(
                if elf_loading::last_value(entries, DT_RELA) is None {
                    "DT_RELASZ or DT_RELAENT without DT_RELA"
                } else if elf_loading::last_value(entries, DT_RELASZ) is None {
                    "DT_RELA without DT_RELASZ"
                } else {
                    "DT_RELA without DT_RELAENT"
                },
            ),
        ),
{
    let own = Err(
        LoadError::InvalidElf(
            if elf_loading::last_value(entries, DT_RELA) is None {
                "DT_RELASZ or DT_RELAENT without DT_RELA"
            } else if elf_loading::last_value(entries, DT_RELASZ) is None {
                "DT_RELA without DT_RELASZ"
            } else {
                "DT_RELA without DT_RELAENT"
            },
        ),
    );
    physical::lemma_no_request(
        |memory: Physical<S>|
            elf_loading::dynamic_run(memory, DynamicView::Entries(entries), load_base, e_machine),
        before,
        copied,
        after,
        copied_after,
        own,
        r,
    );
}

} // verus!
