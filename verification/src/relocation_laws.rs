//! What relocating a kernel promises, in terms of its relocation tables.

use crate::arith;
use crate::elf_file::{
    DynamicEntry, DynamicView, ProgramHeader, DT_RELA, DT_RELAENT, DT_RELASZ, DT_RELR, DT_RELRENT,
    DT_RELRSZ, PT_DYNAMIC,
};
use crate::elf_loading;
use crate::laws;
use crate::paging;
use crate::paging::Cell;
use crate::physical::Run;
use crate::properties;
use crate::relocation;
use crate::relocation::{Fetch, Virtual};
use crate::traits::PageSize;
use vstd::prelude::*;

verus! {

/// The bit with the given number is set.
pub open spec fn bit_set(value: u64, bit: int) -> bool {
    bit >= 0 && value as int / vstd::arithmetic::power2::pow2(bit as nat) as int % 2 == 1
}

/// The entries from number `i` on, up to the entry before number `j`, are bitmaps. Entry `i`
/// itself is an address, or there is none.
pub open spec fn bitmaps_between(table: Seq<u64>, i: int, j: int) -> bool {
    &&& -1 <= i < j
    &&& i >= 0 ==> table[i] % 2 == 0
    &&& forall|m: int| i < m < j ==> (#[trigger] table[m]) % 2 == 1
}

/// Where the words begin that the bitmaps behind entry `i` are about: behind the word that the
/// entry names.
pub open spec fn words_behind(table: Seq<u64>, load_base: i64, i: int) -> int {
    if i < 0 {
        0
    } else {
        table[i] + load_base + 8
    }
}

/// Entry `j` of a RELR table names the word at `addr`. An even entry is the address of a word in
/// the file. An odd entry is a bitmap of the 63 words that follow those of the entry before it:
/// bit 1 is for the first of them.
pub open spec fn relr_names(table: Seq<u64>, load_base: i64, j: int, addr: int) -> bool {
    if table[j] % 2 == 0 {
        addr == laws::moved(table[j], load_base)
    } else {
        exists|i: int, bit: int|
            {
                &&& #[trigger] bitmaps_between(table, i, j)
                &&& 1 <= bit <= 63
                &&& #[trigger] bit_set(table[j], bit)
                &&& addr == (words_behind(table, load_base, i) + 504 * (j - i - 1) + 8 * (bit - 1))
                    % 0x1_0000_0000_0000_0000
            }
    }
}

/// The numbers of the bits that are set, in ascending order.
spec fn set_bits(value: u64) -> Seq<int>
    decreases value,
{
    if value == 0 {
        Seq::empty()
    } else {
        let rest = set_bits(value / 2).map_values(|bit: int| bit + 1);
        if value % 2 == 0 {
            rest
        } else {
            seq![0int] + rest
        }
    }
}

/// A bit of a number is the bit one below of its half.
proof fn lemma_bit_of_half(value: u64, bit: int)
    ensures
        bit >= 0 ==> bit_set(value, bit + 1) == bit_set(value / 2, bit),
        bit_set(value, 0) == (value % 2 == 1),
{
    if bit >= 0 {
        vstd::arithmetic::power2::lemma_pow2_unfold((bit + 1) as nat);
        vstd::arithmetic::power2::lemma_pow2_pos(bit as nat);
        vstd::arithmetic::div_mod::lemma_div_denominator(
            value as int,
            2,
            vstd::arithmetic::power2::pow2(bit as nat) as int,
        );
    }
    vstd::arithmetic::power2::lemma2_to64();
    vstd::arithmetic::div_mod::lemma_div_by_multiple(value as int, 1);
}

/// The list of set bits holds each set bit once.
proof fn lemma_set_bits(value: u64, count: nat)
    requires
        value < vstd::arithmetic::power2::pow2(count),
    ensures
        forall|p: int|
            0 <= p < set_bits(value).len() ==> 0 <= (#[trigger] set_bits(value)[p]) < count
                && bit_set(value, set_bits(value)[p]),
        forall|p: int, q: int|
            0 <= p < q < set_bits(value).len() ==> (#[trigger] set_bits(value)[p]) < (
            #[trigger] set_bits(value)[q]),
        forall|bit: int| #[trigger] bit_set(value, bit) ==> set_bits(value).contains(bit),
    decreases value,
{
    let all = set_bits(value);
    if value == 0 {
        assert forall|bit: int| !#[trigger] bit_set(value, bit) by {
            if bit >= 0 {
                vstd::arithmetic::power2::lemma_pow2_pos(bit as nat);
                vstd::arithmetic::div_mod::lemma_basic_div(0, vstd::arithmetic::power2::pow2(bit as nat) as int);
            }
        }
    } else {
        vstd::arithmetic::power2::lemma2_to64();
        let below = if count == 0 {
            0nat
        } else {
            vstd::arithmetic::power2::lemma_pow2_unfold(count);
            (count - 1) as nat
        };
        lemma_set_bits(value / 2, below);
        let half = set_bits(value / 2);
        let rest = half.map_values(|bit: int| bit + 1);
        let skip: int = if value % 2 == 0 {
            0
        } else {
            1
        };
        lemma_bit_of_half(value, 0);
        assert forall|p: int| 0 <= p < all.len() implies 0 <= (#[trigger] all[p]) < count
            && bit_set(value, all[p]) by {
            if p >= skip {
                assert(all[p] == half[p - skip] + 1);
                lemma_bit_of_half(value, half[p - skip]);
            }
        }
        assert forall|p: int, q: int| 0 <= p < q < all.len() implies (#[trigger] all[p]) < (
        #[trigger] all[q]) by {
            assert(all[q] == half[q - skip] + 1);
            if p >= skip {
                assert(all[p] == half[p - skip] + 1);
            }
        }
        assert forall|bit: int| #[trigger] bit_set(value, bit) implies all.contains(bit) by {
            if bit == 0 {
                assert(all[0] == 0);
            } else {
                lemma_bit_of_half(value, bit - 1);
                assert(bit_set(value / 2, bit - 1));
                let p = choose|p: int| 0 <= p < half.len() && half[p] == bit - 1;
                assert(all[p + skip] == bit);
            }
        }
    }
}

/// The words of a bitmap are those of its set bits.
proof fn lemma_bitmap_words(addr: u64, bitmap: u64)
    ensures
        properties::bitmap_words(addr, bitmap) == set_bits(bitmap).map_values(
            |bit: int| arith::wrapped_sum(addr, 8 * bit),
        ),
    decreases bitmap,
{
    let goal = set_bits(bitmap).map_values(|bit: int| arith::wrapped_sum(addr, 8 * bit));
    let words = properties::bitmap_words(addr, bitmap);
    if bitmap == 0 {
        assert(words =~= goal);
    } else {
        let next = arith::wrapped_sum(addr, 8);
        lemma_bitmap_words(next, bitmap / 2);
        let half = set_bits(bitmap / 2);
        let rest = properties::bitmap_words(next, bitmap / 2);
        let skip: int = if bitmap % 2 == 0 {
            0
        } else {
            1
        };
        vstd::arithmetic::div_mod::lemma_small_mod(
            addr as nat,
            arith::address_space_size() as nat,
        );
        assert forall|p: int| 0 <= p < goal.len() implies #[trigger] words[p] == goal[p] by {
            if p >= skip {
                assert(set_bits(bitmap)[p] == half[p - skip] + 1);
                assert(words[p] == rest[p - skip]);
                vstd::arithmetic::div_mod::lemma_add_mod_noop(
                    addr + 8,
                    8 * half[p - skip],
                    arith::address_space_size(),
                );
                vstd::arithmetic::div_mod::lemma_mod_twice(
                    addr + 8,
                    arith::address_space_size(),
                );
                vstd::arithmetic::div_mod::lemma_add_mod_noop(
                    next as int,
                    8 * half[p - skip],
                    arith::address_space_size(),
                );
            }
        }
        assert(words =~= goal);
    }
}

/// Where the words of entry `j` begin if it is a bitmap.
spec fn at_base(table: Seq<u64>, load_base: i64, j: int, base: u64) -> bool {
    exists|i: int| #[trigger]
        bitmaps_between(table, i, j) && base == (words_behind(table, load_base, i) + 504 * (j - i
            - 1)) % 0x1_0000_0000_0000_0000
}

/// Behind each entry the words of the next one begin where the format says.
proof fn lemma_next_base(table: Seq<u64>, load_base: i64, j: int, base: u64)
    requires
        0 <= j,
        at_base(table, load_base, j, base),
    ensures
        at_base(
            table,
            load_base,
            j + 1,
            relocation::relr_next_base(table[j], base, load_base),
        ),
{
    let n = arith::address_space_size();
    if table[j] % 2 == 0 {
        assert(bitmaps_between(table, j, j + 1));
        vstd::arithmetic::div_mod::lemma_add_mod_noop(table[j] + load_base, 8, n);
        vstd::arithmetic::div_mod::lemma_mod_twice(table[j] + load_base, n);
        vstd::arithmetic::div_mod::lemma_add_mod_noop(
            arith::rebased(table[j], load_base) as int,
            8,
            n,
        );
    } else {
        let i = choose|i: int| #[trigger]
            bitmaps_between(table, i, j) && base == (words_behind(table, load_base, i) + 504 * (j
                - i - 1)) % 0x1_0000_0000_0000_0000;
        let sum = words_behind(table, load_base, i) + 504 * (j - i - 1);
        assert(bitmaps_between(table, i, j + 1));
        vstd::arithmetic::div_mod::lemma_add_mod_noop(sum, 504, n);
        vstd::arithmetic::div_mod::lemma_mod_twice(sum, n);
        vstd::arithmetic::div_mod::lemma_add_mod_noop(base as int, 504, n);
    }
}

/// There is one entry from which the words of a bitmap are counted.
proof fn lemma_one_anchor(table: Seq<u64>, first: int, second: int, j: int)
    requires
        bitmaps_between(table, first, j),
        bitmaps_between(table, second, j),
    ensures
        first == second,
{
    if first < second {
        assert(table[second] % 2 == 1);
    }
    if second < first {
        assert(table[first] % 2 == 1);
    }
}

/// The words of one entry are those that it names, each once.
proof fn lemma_entry_words(table: Seq<u64>, load_base: i64, j: int, base: u64)
    requires
        0 <= j,
        at_base(table, load_base, j, base),
    ensures
        ({
            let words = properties::relr_entry_words(table[j], base, load_base);
            &&& forall|p: int|
                0 <= p < words.len() ==> relr_names(
                    table,
                    load_base,
                    j,
                    (#[trigger] words[p]) as int,
                )
            &&& forall|p: int, q: int|
                0 <= p < q < words.len() ==> (#[trigger] words[p]) != (#[trigger] words[q])
            &&& forall|addr: u64| #[trigger]
                relr_names(table, load_base, j, addr as int) ==> words.contains(addr)
        }),
{
    let n = arith::address_space_size();
    let entry = table[j];
    let words = properties::relr_entry_words(entry, base, load_base);
    if entry % 2 == 0 {
        assert(words[0] == arith::rebased(entry, load_base));
    } else {
        let i = choose|i: int| #[trigger]
            bitmaps_between(table, i, j) && base == (words_behind(table, load_base, i) + 504 * (j
                - i - 1)) % 0x1_0000_0000_0000_0000;
        let sum = words_behind(table, load_base, i) + 504 * (j - i - 1);
        let bits = set_bits(entry / 2);
        vstd::arithmetic::power2::lemma2_to64_rest();
        lemma_set_bits(entry / 2, 63);
        lemma_bitmap_words(base, entry / 2);
        assert forall|bit: int| #[trigger] arith::wrapped_sum(base, 8 * bit) == (sum + 8 * bit)
            % n by {
            vstd::arithmetic::div_mod::lemma_add_mod_noop(sum, 8 * bit, n);
            vstd::arithmetic::div_mod::lemma_mod_twice(sum, n);
            vstd::arithmetic::div_mod::lemma_add_mod_noop(base as int, 8 * bit, n);
        }
        assert forall|p: int| 0 <= p < words.len() implies relr_names(
            table,
            load_base,
            j,
            (#[trigger] words[p]) as int,
        ) by {
            let bit = bits[p];
            assert(bit_set(entry / 2, bit));
            lemma_bit_of_half(entry, bit);
            assert(words[p] == arith::wrapped_sum(base, 8 * bit));
            assert(bitmaps_between(table, i, j) && bit_set(entry, bit + 1));
        }
        assert forall|p: int, q: int| 0 <= p < q < words.len() implies (#[trigger] words[p]) != (
        #[trigger] words[q]) by {
            let low = bits[p];
            let high = bits[q];
            assert(words[p] == arith::wrapped_sum(base, 8 * low));
            assert(words[q] == arith::wrapped_sum(base, 8 * high));
            lemma_no_wrap(base, 8 * low, 8 * high);
        }
        assert forall|addr: u64| #[trigger]
            relr_names(table, load_base, j, addr as int) implies words.contains(addr) by {
            let (other, bit) = choose|other: int, bit: int|
                {
                    &&& #[trigger] bitmaps_between(table, other, j)
                    &&& 1 <= bit <= 63
                    &&& #[trigger] bit_set(table[j], bit)
                    &&& addr as int == (words_behind(table, load_base, other) + 504 * (j - other
                        - 1) + 8 * (bit - 1)) % 0x1_0000_0000_0000_0000
                };
            lemma_one_anchor(table, i, other, j);
            lemma_bit_of_half(entry, bit - 1);
            assert(bit_set(entry / 2, bit - 1));
            let p = choose|p: int| 0 <= p < bits.len() && bits[p] == bit - 1;
            assert(words[p] == arith::wrapped_sum(base, 8 * (bit - 1)));
            assert(words[p] == addr);
        }
    }
}

/// Two offsets less than the address space apart lead to different addresses.
proof fn lemma_no_wrap(base: u64, low: int, high: int)
    requires
        low < high < low + arith::address_space_size(),
    ensures
        arith::wrapped_sum(base, low) != arith::wrapped_sum(base, high),
{
    let n = arith::address_space_size();
    vstd::arithmetic::div_mod::lemma_fundamental_div_mod(base + low, n);
    vstd::arithmetic::div_mod::lemma_fundamental_div_mod(base + high, n);
    let first = (base + low) / n;
    let second = (base + high) / n;
    if (base + low) % n == (base + high) % n {
        assert(false) by (nonlinear_arith)
            requires
                n > 0,
                n * second - n * first == high - low,
                0 < high - low < n,
        ;
    }
}

/// The words of a RELR table are those that its entries name. A word that only one entry names is
/// in the list once.
proof fn lemma_table_words<S: PageSize>(
    vm: Map<int, Cell<S>>,
    base: u64,
    at: u64,
    first: int,
    load_base: i64,
    table: Seq<u64>,
)
    requires
        0 <= first <= table.len(),
        at_base(table, load_base, first, base),
        forall|j: int|
            0 <= j < table.len() ==> properties::word_at(vm, properties::relr_entry(at, j))
                == #[trigger] table[j],
    ensures
        ({
            let words = properties::relr_words(
                vm,
                base,
                at,
                first,
                table.len() as int,
                load_base,
            );
            &&& forall|p: int|
                0 <= p < words.len() ==> #[trigger] named_from(table, load_base, first, words[p])
            &&& forall|j: int, addr: u64|
                first <= j < table.len() && #[trigger] relr_names(table, load_base, j, addr as int)
                    ==> once_in(words, table, load_base, j, addr)
        }),
    decreases table.len() - first,
{
    let words = properties::relr_words(vm, base, at, first, table.len() as int, load_base);
    if first < table.len() {
        let entry = table[first];
        assert(properties::word_at(vm, properties::relr_entry(at, first)) == entry);
        let now = properties::relr_entry_words(entry, base, load_base);
        let next_base = relocation::relr_next_base(entry, base, load_base);
        lemma_next_base(table, load_base, first, base);
        lemma_entry_words(table, load_base, first, base);
        lemma_table_words(vm, next_base, at, first + 1, load_base, table);
        let later = properties::relr_words(
            vm,
            next_base,
            at,
            first + 1,
            table.len() as int,
            load_base,
        );
        assert(words == now + later);
        let m = now.len() as int;
        assert forall|p: int| 0 <= p < words.len() implies #[trigger] named_from(
            table,
            load_base,
            first,
            words[p],
        ) by {
            if p < m {
                assert(words[p] == now[p]);
                assert(relr_names(table, load_base, first, words[p] as int));
            } else {
                assert(words[p] == later[p - m]);
                assert(named_from(table, load_base, first + 1, later[p - m]));
                let j = choose|j: int|
                    first + 1 <= j < table.len() && #[trigger] relr_names(
                        table,
                        load_base,
                        j,
                        words[p] as int,
                    );
                assert(relr_names(table, load_base, j, words[p] as int));
            }
        }
        assert forall|j: int, addr: u64|
            first <= j < table.len() && #[trigger] relr_names(
                table,
                load_base,
                j,
                addr as int,
            ) implies once_in(words, table, load_base, j, addr) by {
            if j == first {
                assert(now.contains(addr));
                let p = choose|p: int| 0 <= p < now.len() && now[p] == addr;
                assert(words[p] == addr);
                assert forall|q: int| 0 <= q < words.len() && q != p implies named_otherwise(
                    table,
                    load_base,
                    j,
                    addr,
                    #[trigger] words[q],
                ) by {
                    if q < m {
                        assert(words[q] == now[q]);
                        assert(relr_names(table, load_base, first, words[q] as int));
                        assert(now[q] != now[p]) by {
                            if q < p {
                                assert(now[q] != now[p]);
                            } else {
                                assert(now[p] != now[q]);
                            }
                        }
                    } else {
                        assert(words[q] == later[q - m]);
                        assert(named_from(table, load_base, first + 1, later[q - m]));
                        let k = choose|k: int|
                            first + 1 <= k < table.len() && #[trigger] relr_names(
                                table,
                                load_base,
                                k,
                                words[q] as int,
                            );
                        assert(relr_names(table, load_base, k, words[q] as int));
                    }
                }
                assert(words[p] == addr);
            } else {
                assert(once_in(later, table, load_base, j, addr));
                let p = choose|p: int|
                    {
                        &&& 0 <= p < later.len()
                        &&& #[trigger] later[p] == addr
                        &&& forall|q: int|
                            0 <= q < later.len() && q != p ==> named_otherwise(
                                table,
                                load_base,
                                j,
                                addr,
                                #[trigger] later[q],
                            )
                    };
                assert(words[m + p] == addr);
                assert forall|q: int| 0 <= q < words.len() && q != m + p implies named_otherwise(
                    table,
                    load_base,
                    j,
                    addr,
                    #[trigger] words[q],
                ) by {
                    if q < m {
                        assert(words[q] == now[q]);
                        assert(relr_names(table, load_base, first, words[q] as int));
                    } else {
                        assert(words[q] == later[q - m]);
                    }
                }
            }
        }
    }
}

/// An entry from number `first` on names the word.
spec fn named_from(table: Seq<u64>, load_base: i64, first: int, addr: u64) -> bool {
    exists|j: int|
        first <= j < table.len() && #[trigger] relr_names(table, load_base, j, addr as int)
}

/// An entry other than `j` names the word at `other`, or it is another word than that at `addr`.
spec fn named_otherwise(
    table: Seq<u64>,
    load_base: i64,
    j: int,
    addr: u64,
    other: u64,
) -> bool {
    exists|k: int|
        0 <= k < table.len() && #[trigger] relr_names(table, load_base, k, other as int) && (k != j
            || other != addr)
}

/// The word is in the list, and all others in the list are named otherwise.
spec fn once_in(
    words: Seq<u64>,
    table: Seq<u64>,
    load_base: i64,
    j: int,
    addr: u64,
) -> bool {
    exists|p: int|
        {
            &&& 0 <= p < words.len()
            &&& #[trigger] words[p] == addr
            &&& forall|q: int|
                0 <= q < words.len() && q != p ==> named_otherwise(
                    table,
                    load_base,
                    j,
                    addr,
                    #[trigger] words[q],
                )
        }
}

/// A word of the list that no other of them overlaps is the word from before plus the load base.
proof fn lemma_adjusted_once<S: PageSize>(
    vm: Map<int, Cell<S>>,
    copied: Seq<u64>,
    words: Seq<u64>,
    load_base: i64,
    p: int,
)
    requires
        properties::page_wise(vm),
        0 <= p < words.len(),
        forall|q: int|
            0 <= q < words.len() && q != p ==> properties::apart(#[trigger] words[q], words[p]),
    ensures
        properties::adjust_all(vm, copied, words, load_base) matches Run::Done(after)
            ==> relocation::fetch(after.vm, words[p]) == Fetch::Word(
            laws::moved(properties::word_at(vm, words[p]), load_base) as u64,
        ),
    decreases words.len(),
{
    let addr = words[0];
    let rest = words.skip(1);
    let value = arith::rebased(properties::word_at(vm, addr), load_base);
    match relocation::adjust(Virtual { vm, copied }, addr, load_base) {
        Run::Done(Virtual { vm: next, copied: next_copied }) => {
            assert(relocation::put(vm, copied, addr, value) == Run::Done(
                Virtual { vm: next, copied: next_copied },
            ));
            properties::lemma_written_word_is_read_back(vm, copied, addr, value);
            if p == 0 {
                properties::lemma_adjust_all(next, next_copied, rest, load_base);
                assert forall|q: int| 0 <= q < rest.len() implies properties::apart(
                    #[trigger] rest[q],
                    addr,
                ) by {
                    assert(properties::apart(words[q + 1], words[0]));
                }
                assert(properties::spares(rest, addr));
            } else {
                assert(properties::apart(words[0], words[p]));
                properties::lemma_other_word_is_kept(vm, copied, addr, value, words[p]);
                assert(rest[p - 1] == words[p]);
                assert forall|q: int| 0 <= q < rest.len() && q != p - 1 implies properties::apart(
                    #[trigger] rest[q],
                    rest[p - 1],
                ) by {
                    assert(properties::apart(words[q + 1], words[p]));
                }
                lemma_adjusted_once(next, next_copied, rest, load_base, p - 1);
            }
        },
        _ => {},
    }
}

/// No RELA entry from number `first` on relocates a part of the table.
pub open spec fn rela_keeps_table<S: PageSize>(
    vm: Map<int, Cell<S>>,
    table: u64,
    first: int,
    count: int,
    load_base: i64,
) -> bool {
    forall|i: int, j: int, field: int|
        first <= i < count && first <= j < count && 0 <= field < 3 ==> properties::apart(
            #[trigger] properties::rela_target(vm, table, i, load_base),
            #[trigger] properties::rela_field(table, j, field),
        )
}

/// No RELA entry from number `first` on, but for entry `i`, relocates a part of its word.
pub open spec fn rela_alone<S: PageSize>(
    vm: Map<int, Cell<S>>,
    table: u64,
    first: int,
    count: int,
    load_base: i64,
    i: int,
) -> bool {
    forall|j: int|
        first <= j < count && j != i ==> properties::apart(
            #[trigger] properties::rela_target(vm, table, j, load_base),
            properties::rela_target(vm, table, i, load_base),
        )
}

/// Applying one RELA entry leaves those behind it as they are.
proof fn lemma_rela_entries_kept<S: PageSize>(
    vm: Map<int, Cell<S>>,
    copied: Seq<u64>,
    table: u64,
    first: int,
    count: int,
    load_base: i64,
    next: Map<int, Cell<S>>,
    next_copied: Seq<u64>,
)
    requires
        properties::page_wise(vm),
        first < count,
        rela_keeps_table(vm, table, first, count, load_base),
        relocation::put(
            vm,
            copied,
            properties::rela_target(vm, table, first, load_base),
            properties::rela_value(vm, table, first, load_base),
        ) == (Run::Done(Virtual { vm: next, copied: next_copied })),
    ensures
        forall|j: int|
            first <= j < count ==> #[trigger] properties::rela_target(next, table, j, load_base)
                == properties::rela_target(vm, table, j, load_base) && properties::rela_value(
                next,
                table,
                j,
                load_base,
            ) == properties::rela_value(vm, table, j, load_base),
        rela_keeps_table(next, table, first + 1, count, load_base),
        forall|j: int, field: int|
            first <= j < count && 0 <= field < 3 ==> relocation::fetch(
                next,
                #[trigger] properties::rela_field(table, j, field),
            ) == relocation::fetch(vm, properties::rela_field(table, j, field)),
{
    let target = properties::rela_target(vm, table, first, load_base);
    let value = properties::rela_value(vm, table, first, load_base);
    assert forall|j: int, field: int| first <= j < count && 0 <= field < 3 implies
        relocation::fetch(next, #[trigger] properties::rela_field(table, j, field))
        == relocation::fetch(vm, properties::rela_field(table, j, field)) by {
        assert(properties::apart(target, properties::rela_field(table, j, field)));
        properties::lemma_other_word_is_kept(
            vm,
            copied,
            target,
            value,
            properties::rela_field(table, j, field),
        );
    }
    assert forall|j: int| first <= j < count implies #[trigger] properties::rela_target(
        next,
        table,
        j,
        load_base,
    ) == properties::rela_target(vm, table, j, load_base) && properties::rela_value(
        next,
        table,
        j,
        load_base,
    ) == properties::rela_value(vm, table, j, load_base) by {
        assert(properties::apart(target, properties::rela_field(table, j, 0)));
        assert(properties::apart(target, properties::rela_field(table, j, 2)));
        properties::lemma_other_word_is_kept(
            vm,
            copied,
            target,
            value,
            properties::rela_field(table, j, 0),
        );
        properties::lemma_other_word_is_kept(
            vm,
            copied,
            target,
            value,
            properties::rela_field(table, j, 2),
        );
    }
    assert forall|i: int, j: int, field: int|
        first + 1 <= i < count && first + 1 <= j < count && 0 <= field
            < 3 implies properties::apart(
        #[trigger] properties::rela_target(next, table, i, load_base),
        #[trigger] properties::rela_field(table, j, field),
    ) by {
        assert(properties::apart(
            properties::rela_target(vm, table, i, load_base),
            properties::rela_field(table, j, field),
        ));
    }
}

/// What applying RELA entries does to each word.
proof fn lemma_rela_words<S: PageSize>(
    vm: Map<int, Cell<S>>,
    copied: Seq<u64>,
    table: u64,
    first: int,
    count: int,
    load_base: i64,
    expected: u32,
)
    requires
        properties::page_wise(vm),
        rela_keeps_table(vm, table, first, count, load_base),
    ensures
        relocation::rela_run(
            Virtual { vm, copied },
            table,
            first,
            count,
            load_base,
            expected,
        ) matches Run::Done(Virtual { vm: after, .. }) ==> {
            &&& properties::page_wise(after)
            &&& forall|i: int|
                first <= i < count && #[trigger] rela_alone(vm, table, first, count, load_base, i)
                    ==> relocation::fetch(
                    after,
                    properties::rela_target(vm, table, i, load_base),
                ) == Fetch::Word(properties::rela_value(vm, table, i, load_base))
            &&& forall|other: u64|
                properties::rela_spares(vm, table, first, count, load_base, other)
                    ==> #[trigger] relocation::fetch(after, other) == relocation::fetch(vm, other)
        },
    decreases count - first,
{
    if first < count {
        let target = properties::rela_target(vm, table, first, load_base);
        let value = properties::rela_value(vm, table, first, load_base);
        properties::lemma_rela_entry(vm, copied, table, first, load_base, expected);
        match relocation::put(vm, copied, target, value) {
            Run::Done(Virtual { vm: next, copied: next_copied }) => {
                properties::lemma_written_word_is_read_back(vm, copied, target, value);
                lemma_rela_entries_kept(
                    vm,
                    copied,
                    table,
                    first,
                    count,
                    load_base,
                    next,
                    next_copied,
                );
                lemma_rela_words(
                    next,
                    next_copied,
                    table,
                    first + 1,
                    count,
                    load_base,
                    expected,
                );
                let rest = relocation::rela_run(
                    Virtual { vm: next, copied: next_copied },
                    table,
                    first + 1,
                    count,
                    load_base,
                    expected,
                );
                if let Run::Done(Virtual { vm: after, .. }) = rest {
                    assert forall|other: u64|
                        properties::rela_spares(vm, table, first + 1, count, load_base, other)
                        implies #[trigger] relocation::fetch(after, other) == relocation::fetch(
                        next,
                        other,
                    ) by {
                        assert forall|j: int| first + 1 <= j < count implies properties::apart(
                            #[trigger] properties::rela_target(next, table, j, load_base),
                            other,
                        ) by {
                            assert(properties::apart(
                                properties::rela_target(vm, table, j, load_base),
                                other,
                            ));
                        }
                        assert(properties::rela_spares(
                            next,
                            table,
                            first + 1,
                            count,
                            load_base,
                            other,
                        ));
                    }
                    assert forall|i: int|
                        first <= i < count && #[trigger] rela_alone(
                            vm,
                            table,
                            first,
                            count,
                            load_base,
                            i,
                        ) implies relocation::fetch(
                        after,
                        properties::rela_target(vm, table, i, load_base),
                    ) == Fetch::Word(properties::rela_value(vm, table, i, load_base)) by {
                        if i == first {
                            assert(properties::rela_spares(
                                vm,
                                table,
                                first + 1,
                                count,
                                load_base,
                                target,
                            ));
                        } else {
                            assert(properties::rela_target(next, table, i, load_base)
                                == properties::rela_target(vm, table, i, load_base));
                            assert forall|j: int| first + 1 <= j < count && j != i implies
                                properties::apart(
                                #[trigger] properties::rela_target(next, table, j, load_base),
                                properties::rela_target(next, table, i, load_base),
                            ) by {
                                assert(properties::apart(
                                    properties::rela_target(vm, table, j, load_base),
                                    properties::rela_target(vm, table, i, load_base),
                                ));
                            }
                            assert(rela_alone(next, table, first + 1, count, load_base, i));
                        }
                    }
                    assert forall|other: u64|
                        properties::rela_spares(vm, table, first, count, load_base, other) implies
                        #[trigger] relocation::fetch(after, other) == relocation::fetch(
                        vm,
                        other,
                    ) by {
                        assert(properties::apart(
                            properties::rela_target(vm, table, first, load_base),
                            other,
                        ));
                        properties::lemma_other_word_is_kept(vm, copied, target, value, other);
                        assert(properties::rela_spares(
                            vm,
                            table,
                            first + 1,
                            count,
                            load_base,
                            other,
                        ));
                    }
                }
            },
            _ => {},
        }
    }
}

/// The dynamic table gives this value for a tag. Of several values the last one counts.
pub open spec fn tag_value(entries: Seq<DynamicEntry>, tag: i64, value: u64) -> bool {
    exists|k: int|
        {
            &&& 0 <= k < entries.len()
            &&& (#[trigger] entries[k]).d_tag == tag
            &&& entries[k].d_val == value
            &&& forall|m: int| k < m < entries.len() ==> (#[trigger] entries[m]).d_tag != tag
        }
}

/// The dynamic table has no entry with this tag.
pub open spec fn no_tag(entries: Seq<DynamicEntry>, tag: i64) -> bool {
    forall|m: int| 0 <= m < entries.len() ==> (#[trigger] entries[m]).d_tag != tag
}

/// The value that is read for a tag is the one that counts.
pub proof fn lemma_tag_value(entries: Seq<DynamicEntry>, tag: i64)
    ensures
        forall|value: u64| #[trigger]
            tag_value(entries, tag, value) <==> elf_loading::last_value(entries, tag) == Some(
                value,
            ),
        no_tag(entries, tag) <==> elf_loading::last_value(entries, tag) is None,
    decreases entries.len(),
{
    if entries.len() > 0 {
        let rest = entries.drop_last();
        let n = rest.len() as int;
        lemma_tag_value(rest, tag);
        if entries.last().d_tag == tag {
            assert(entries[n].d_tag == tag);
            assert forall|value: u64| #[trigger] tag_value(entries, tag, value) implies value
                == entries.last().d_val by {
                let k = choose|k: int|
                    {
                        &&& 0 <= k < entries.len()
                        &&& (#[trigger] entries[k]).d_tag == tag
                        &&& entries[k].d_val == value
                        &&& forall|m: int|
                            k < m < entries.len() ==> (#[trigger] entries[m]).d_tag != tag
                    };
                if k < n {
                    assert(entries[n].d_tag != tag);
                }
            }
        } else {
            assert forall|value: u64| #[trigger]
                tag_value(entries, tag, value) == tag_value(rest, tag, value) by {
                if tag_value(entries, tag, value) {
                    let k = choose|k: int|
                        {
                            &&& 0 <= k < entries.len()
                            &&& (#[trigger] entries[k]).d_tag == tag
                            &&& entries[k].d_val == value
                            &&& forall|m: int|
                                k < m < entries.len() ==> (#[trigger] entries[m]).d_tag != tag
                        };
                    assert(rest[k].d_tag == tag);
                    assert forall|m: int| k < m < rest.len() implies (#[trigger] rest[m]).d_tag
                        != tag by {
                        assert(entries[m].d_tag != tag);
                    }
                }
                if tag_value(rest, tag, value) {
                    let k = choose|k: int|
                        {
                            &&& 0 <= k < rest.len()
                            &&& (#[trigger] rest[k]).d_tag == tag
                            &&& rest[k].d_val == value
                            &&& forall|m: int|
                                k < m < rest.len() ==> (#[trigger] rest[m]).d_tag != tag
                        };
                    assert(entries[k].d_tag == tag);
                    assert forall|m: int| k < m < entries.len() implies (
                    #[trigger] entries[m]).d_tag != tag by {
                        if m < n {
                            assert(rest[m].d_tag != tag);
                        }
                    }
                }
            }
            if no_tag(rest, tag) {
                assert forall|m: int| 0 <= m < entries.len() implies (#[trigger] entries[m]).d_tag
                    != tag by {
                    if m < n {
                        assert(rest[m].d_tag != tag);
                    }
                }
            }
            if no_tag(entries, tag) {
                assert forall|m: int| 0 <= m < rest.len() implies (#[trigger] rest[m]).d_tag
                    != tag by {
                    assert(entries[m].d_tag != tag);
                }
            }
        }
    }
}

/// The relocation tables of a kernel: where its RELA table lies and how many entries it has, and
/// where its RELR table lies and what its entries are.
pub ghost struct Tables {
    pub rela_at: u64,
    pub rela_count: int,
    pub relr_at: u64,
    pub relr: Seq<u64>,
}

/// These are the tables that a dynamic table describes, in the given memory.
pub open spec fn described<S: PageSize>(
    tables: Tables,
    entries: Seq<DynamicEntry>,
    load_base: i64,
    vm: Map<int, Cell<S>>,
) -> bool {
    &&& no_tag(entries, DT_RELA) ==> tables.rela_count == 0
    &&& !no_tag(entries, DT_RELA) ==> exists|addr: u64, size: u64|
        {
            &&& #[trigger] tag_value(entries, DT_RELA, addr)
            &&& #[trigger] tag_value(entries, DT_RELASZ, size)
            &&& tables.rela_at == laws::moved(addr, load_base)
            &&& tables.rela_count == size as int / 24
        }
    &&& no_tag(entries, DT_RELR) ==> tables.relr.len() == 0
    &&& !no_tag(entries, DT_RELR) ==> exists|addr: u64, size: u64|
        {
            &&& #[trigger] tag_value(entries, DT_RELR, addr)
            &&& #[trigger] tag_value(entries, DT_RELRSZ, size)
            &&& tables.relr_at == laws::moved(addr, load_base)
            &&& tables.relr.len() == size as int / 8
        }
    &&& forall|j: int|
        0 <= j < tables.relr.len() ==> relocation::fetch(
            vm,
            properties::relr_entry(tables.relr_at, j),
        ) == Fetch::Word(#[trigger] tables.relr[j])
}

/// The RELR table names the word at `addr`.
pub open spec fn relr_has(tables: Tables, load_base: i64, addr: u64) -> bool {
    exists|j: int|
        0 <= j < tables.relr.len() && #[trigger] relr_names(
            tables.relr,
            load_base,
            j,
            addr as int,
        )
}

/// The tables do not relocate themselves: neither names a word that overlaps an entry which is
/// still to be applied.
pub open spec fn undisturbed<S: PageSize>(
    tables: Tables,
    load_base: i64,
    vm: Map<int, Cell<S>>,
) -> bool {
    &&& rela_keeps_table(vm, tables.rela_at, 0, tables.rela_count, load_base)
    &&& forall|i: int, j: int|
        0 <= i < tables.rela_count && 0 <= j < tables.relr.len() ==> properties::apart(
            #[trigger] properties::rela_target(vm, tables.rela_at, i, load_base),
            #[trigger] properties::relr_entry(tables.relr_at, j),
        )
    &&& forall|addr: u64, j: int|
        #[trigger] relr_has(tables, load_base, addr) && 0 <= j < tables.relr.len()
            ==> properties::apart(addr, #[trigger] properties::relr_entry(tables.relr_at, j))
}

/// No RELA entry relocates a part of the word at `addr`.
pub open spec fn clear_of_rela<S: PageSize>(
    tables: Tables,
    load_base: i64,
    vm: Map<int, Cell<S>>,
    addr: u64,
) -> bool {
    properties::rela_spares(vm, tables.rela_at, 0, tables.rela_count, load_base, addr)
}

/// No RELR entry relocates a part of the word at `addr`, but for entry `j` that word itself.
pub open spec fn alone_in_relr(tables: Tables, load_base: i64, j: int, addr: u64) -> bool {
    forall|k: int, other: u64|
        0 <= k < tables.relr.len() && #[trigger] relr_names(
            tables.relr,
            load_base,
            k,
            other as int,
        ) && (k != j || other != addr) ==> properties::apart(other, addr)
}

/// What relocation does to the words of memory.
pub open spec fn relocated<S: PageSize>(
    tables: Tables,
    load_base: i64,
    vm: Map<int, Cell<S>>,
    after: Map<int, Cell<S>>,
) -> bool {
    // A word that a RELA entry names becomes the load base plus the addend.
    &&& forall|i: int|
        0 <= i < tables.rela_count && rela_alone(
            vm,
            tables.rela_at,
            0,
            tables.rela_count,
            load_base,
            i,
        ) && alone_in_relr(
            tables,
            load_base,
            -1,
            properties::rela_target(vm, tables.rela_at, i, load_base),
        ) ==> relocation::fetch(
            after,
            #[trigger] properties::rela_target(vm, tables.rela_at, i, load_base),
        ) == Fetch::Word(
            laws::moved(
                properties::word_at(vm, properties::rela_field(tables.rela_at, i, 2)),
                load_base,
            ) as u64,
        )
    // A word that a RELR entry names becomes itself plus the load base.
    &&& forall|j: int, addr: u64|
        0 <= j < tables.relr.len() && #[trigger] relr_names(
            tables.relr,
            load_base,
            j,
            addr as int,
        ) && alone_in_relr(tables, load_base, j, addr) && clear_of_rela(
            tables,
            load_base,
            vm,
            addr,
        ) ==> relocation::fetch(after, addr) == Fetch::Word(
            laws::moved(properties::word_at(vm, addr), load_base) as u64,
        )
    // Every other word stays as it is.
    &&& forall|addr: u64|
        clear_of_rela(tables, load_base, vm, addr) && alone_in_relr(tables, load_base, -1, addr)
            ==> #[trigger] relocation::fetch(after, addr) == relocation::fetch(vm, addr)
}

/// Processing a dynamic segment applies both of its tables, whichever of them there are.
pub proof fn lemma_dynamic_segment_relocates<S: PageSize>(
    vm: Map<int, Cell<S>>,
    copied: Seq<u64>,
    entries: Seq<DynamicEntry>,
    load_base: i64,
    e_machine: u16,
    tables: Tables,
)
    requires
        properties::page_wise(vm),
        described(tables, entries, load_base, vm),
        undisturbed(tables, load_base, vm),
    ensures
        elf_loading::dynamic_run(
            Virtual { vm, copied },
            DynamicView::Entries(entries),
            load_base,
            e_machine,
        ) matches Run::Done(Virtual { vm: after, .. }) ==> relocated(
            tables,
            load_base,
            vm,
            after,
        ) && properties::page_wise(after),
{
    lemma_tag_value(entries, DT_RELA);
    lemma_tag_value(entries, DT_RELASZ);
    lemma_tag_value(entries, DT_RELAENT);
    lemma_tag_value(entries, DT_RELR);
    lemma_tag_value(entries, DT_RELRSZ);
    lemma_tag_value(entries, DT_RELRENT);
    let start = Virtual { vm, copied };
    let run = elf_loading::dynamic_run(
        start,
        DynamicView::Entries(entries),
        load_base,
        e_machine,
    );
    if let Run::Done(Virtual { vm: after, .. }) = run {
        let count = tables.rela_count;
        if let Run::Done(Virtual { vm: mid, copied: mid_copied }) = elf_loading::dynamic_rela_run(
            start,
            entries,
            load_base,
            e_machine,
        ) {
            if no_tag(entries, DT_RELA) {
                assert(mid == vm);
            } else {
                let expected = relocation::relative_type(e_machine).unwrap();
                let (addr, size) = choose|addr: u64, size: u64|
                    {
                        &&& #[trigger] tag_value(entries, DT_RELA, addr)
                        &&& #[trigger] tag_value(entries, DT_RELASZ, size)
                        &&& tables.rela_at == laws::moved(addr, load_base)
                        &&& tables.rela_count == size as int / 24
                    };
                assert(elf_loading::last_value(entries, DT_RELA) == Some(addr));
                assert(elf_loading::last_value(entries, DT_RELASZ) == Some(size));
                lemma_rela_words(vm, copied, tables.rela_at, 0, count, load_base, expected);
                assert(relocation::rela_run(
                    start,
                    tables.rela_at,
                    0,
                    count,
                    load_base,
                    expected,
                ) == Run::Done(Virtual { vm: mid, copied: mid_copied }));
            }
            lemma_relr_part(mid, mid_copied, entries, load_base, tables, vm, after);
            assert forall|i: int|
                0 <= i < count && rela_alone(
                    vm,
                    tables.rela_at,
                    0,
                    count,
                    load_base,
                    i,
                ) && alone_in_relr(
                    tables,
                    load_base,
                    -1,
                    properties::rela_target(vm, tables.rela_at, i, load_base),
                ) implies relocation::fetch(
                after,
                #[trigger] properties::rela_target(vm, tables.rela_at, i, load_base),
            ) == Fetch::Word(
                laws::moved(
                    properties::word_at(vm, properties::rela_field(tables.rela_at, i, 2)),
                    load_base,
                ) as u64,
            ) by {
                let target = properties::rela_target(vm, tables.rela_at, i, load_base);
                assert(relocation::fetch(after, target) == relocation::fetch(mid, target));
            }
            assert forall|j: int, addr: u64|
                0 <= j < tables.relr.len() && #[trigger] relr_names(
                    tables.relr,
                    load_base,
                    j,
                    addr as int,
                ) && alone_in_relr(tables, load_base, j, addr) && clear_of_rela(
                    tables,
                    load_base,
                    vm,
                    addr,
                ) implies relocation::fetch(after, addr) == Fetch::Word(
                laws::moved(properties::word_at(vm, addr), load_base) as u64,
            ) by {
                assert(relocation::fetch(mid, addr) == relocation::fetch(vm, addr));
            }
            assert forall|addr: u64|
                clear_of_rela(tables, load_base, vm, addr) && alone_in_relr(
                    tables,
                    load_base,
                    -1,
                    addr,
                ) implies #[trigger] relocation::fetch(after, addr) == relocation::fetch(
                vm,
                addr,
            ) by {
                assert(relocation::fetch(mid, addr) == relocation::fetch(vm, addr));
            }
        }
    }
}

/// The RELR part of processing a dynamic segment, which starts in the memory `mid`.
proof fn lemma_relr_part<S: PageSize>(
    mid: Map<int, Cell<S>>,
    mid_copied: Seq<u64>,
    entries: Seq<DynamicEntry>,
    load_base: i64,
    tables: Tables,
    vm: Map<int, Cell<S>>,
    after: Map<int, Cell<S>>,
)
    requires
        properties::page_wise(mid),
        described(tables, entries, load_base, vm),
        undisturbed(tables, load_base, vm),
        forall|other: u64|
            clear_of_rela(tables, load_base, vm, other) ==> #[trigger] relocation::fetch(mid, other)
                == relocation::fetch(vm, other),
        elf_loading::dynamic_relr_run(
            Virtual { vm: mid, copied: mid_copied },
            entries,
            load_base,
        ) matches Run::Done(done) && done.vm == after,
    ensures
        properties::page_wise(after),
        forall|j: int, addr: u64|
            0 <= j < tables.relr.len() && #[trigger] relr_names(
                tables.relr,
                load_base,
                j,
                addr as int,
            ) && alone_in_relr(tables, load_base, j, addr) ==> relocation::fetch(after, addr)
                == Fetch::Word(laws::moved(properties::word_at(mid, addr), load_base) as u64),
        forall|addr: u64|
            alone_in_relr(tables, load_base, -1, addr) ==> #[trigger] relocation::fetch(after, addr)
                == relocation::fetch(mid, addr),
{
    lemma_tag_value(entries, DT_RELR);
    lemma_tag_value(entries, DT_RELRSZ);
    lemma_tag_value(entries, DT_RELRENT);
    if no_tag(entries, DT_RELR) {
        assert(after == mid);
    } else {
        let (at, size) = choose|addr: u64, size: u64|
            {
                &&& #[trigger] tag_value(entries, DT_RELR, addr)
                &&& #[trigger] tag_value(entries, DT_RELRSZ, size)
                &&& tables.relr_at == laws::moved(addr, load_base)
                &&& tables.relr.len() == size as int / 8
            };
        assert(elf_loading::last_value(entries, DT_RELR) == Some(at));
        assert(elf_loading::last_value(entries, DT_RELRSZ) == Some(size));
        let table = tables.relr;
        let count = table.len() as int;
        let words = properties::relr_words(mid, 0, tables.relr_at, 0, count, load_base);
        lemma_relr_list(mid, load_base, tables, vm);
        assert forall|j: int| 0 <= j < table.len() implies properties::word_at(
            mid,
            properties::relr_entry(tables.relr_at, j),
        ) == #[trigger] table[j] by {
            let entry = properties::relr_entry(tables.relr_at, j);
            assert(clear_of_rela(tables, load_base, vm, entry)) by {
                assert forall|i: int| 0 <= i < tables.rela_count implies properties::apart(
                    #[trigger] properties::rela_target(vm, tables.rela_at, i, load_base),
                    entry,
                ) by {}
            }
            assert(relocation::fetch(mid, entry) == relocation::fetch(vm, entry));
        }
        assert(at_base(table, load_base, 0, 0)) by {
            assert(bitmaps_between(table, -1, 0));
            vstd::arithmetic::div_mod::lemma_small_mod(0, 0x1_0000_0000_0000_0000);
        }
        lemma_table_words(mid, 0, tables.relr_at, 0, load_base, table);
        properties::lemma_relr_relocates(
            mid,
            mid_copied,
            0,
            tables.relr_at,
            0,
            count,
            load_base,
        );
        properties::lemma_adjust_all(mid, mid_copied, words, load_base);
        assert forall|j: int, addr: u64|
            0 <= j < tables.relr.len() && #[trigger] relr_names(
                tables.relr,
                load_base,
                j,
                addr as int,
            ) && alone_in_relr(tables, load_base, j, addr) implies relocation::fetch(after, addr)
            == Fetch::Word(laws::moved(properties::word_at(mid, addr), load_base) as u64) by {
            assert(once_in(words, table, load_base, j, addr));
            let p = choose|p: int|
                {
                    &&& 0 <= p < words.len()
                    &&& #[trigger] words[p] == addr
                    &&& forall|q: int|
                        0 <= q < words.len() && q != p ==> named_otherwise(
                            table,
                            load_base,
                            j,
                            addr,
                            #[trigger] words[q],
                        )
                };
            assert forall|q: int| 0 <= q < words.len() && q != p implies properties::apart(
                #[trigger] words[q],
                words[p],
            ) by {
                assert(named_otherwise(table, load_base, j, addr, words[q]));
            }
            lemma_adjusted_once(mid, mid_copied, words, load_base, p);
        }
        assert forall|addr: u64|
            alone_in_relr(tables, load_base, -1, addr) implies #[trigger] relocation::fetch(
            after,
            addr,
        ) == relocation::fetch(mid, addr) by {
            assert forall|p: int| 0 <= p < words.len() implies properties::apart(
                #[trigger] words[p],
                addr,
            ) by {
                assert(relr_has(tables, load_base, words[p]));
            }
            assert(properties::spares(words, addr));
        }
    }
}

/// All addresses of a base page have the same flags.
pub open spec fn uniform<S: PageSize>(vm: Map<int, Cell<S>>) -> bool {
    forall|page: int, v: int|
        #![trigger vm[page], vm[v]]
        page % paging::base::<S>() == 0 && page <= v < page + paging::base::<S>()
            && vm.contains_key(page) && vm.contains_key(v) ==> vm[v].flags == vm[page].flags
}

/// The byte at `v` belongs to one of the words.
pub open spec fn in_words(words: spec_fn(u64) -> bool, v: int) -> bool {
    exists|addr: u64| #[trigger] words(addr) && addr <= v < addr + 8
}

/// The page of `v` holds the start of one of the words.
pub open spec fn page_has_word<S: PageSize>(words: spec_fn(u64) -> bool, v: int) -> bool {
    exists|addr: u64| #[trigger]
        words(addr) && arith::floor_to(addr as int, paging::base::<S>()) <= v < arith::floor_to(
            addr as int,
            paging::base::<S>(),
        ) + paging::base::<S>()
}

/// Between the two memories only the given words have changed. Their pages can be written
/// afterwards. Nothing else is different: what is mapped, what can be executed, and what could be
/// written before.
pub open spec fn only_words_changed<S: PageSize>(
    words: spec_fn(u64) -> bool,
    vm: Map<int, Cell<S>>,
    after: Map<int, Cell<S>>,
) -> bool {
    &&& forall|v: int| #[trigger] after.contains_key(v) == vm.contains_key(v)
    &&& forall|v: int| #[trigger]
        vm.contains_key(v) ==> {
            &&& !in_words(words, v) ==> after[v].byte == vm[v].byte
            &&& after[v].size == vm[v].size
            &&& after[v].flags.executable == vm[v].flags.executable
            &&& vm[v].flags.writable ==> after[v].flags.writable
            &&& after[v].flags.writable ==> vm[v].flags.writable || page_has_word::<S>(words, v)
        }
}

/// Two steps that change the given words only are one.
proof fn lemma_words_changed_twice<S: PageSize>(
    words: spec_fn(u64) -> bool,
    first: Map<int, Cell<S>>,
    second: Map<int, Cell<S>>,
    third: Map<int, Cell<S>>,
)
    requires
        only_words_changed(words, first, second),
        only_words_changed(words, second, third),
    ensures
        only_words_changed(words, first, third),
{
    assert forall|v: int| #[trigger] third.contains_key(v) == first.contains_key(v) by {
        assert(second.contains_key(v) == first.contains_key(v));
    }
    assert forall|v: int| #[trigger] first.contains_key(v) implies {
        &&& !in_words(words, v) ==> third[v].byte == first[v].byte
        &&& third[v].size == first[v].size
        &&& third[v].flags.executable == first[v].flags.executable
        &&& first[v].flags.writable ==> third[v].flags.writable
        &&& third[v].flags.writable ==> first[v].flags.writable || page_has_word::<S>(words, v)
    } by {
        assert(second.contains_key(v) == first.contains_key(v));
    }
}

/// Writing one of the words changes the words only.
proof fn lemma_put_word<S: PageSize>(
    words: spec_fn(u64) -> bool,
    vm: Map<int, Cell<S>>,
    copied: Seq<u64>,
    addr: u64,
    value: u64,
)
    requires
        properties::page_wise(vm),
        uniform(vm),
        words(addr),
    ensures
        relocation::put(vm, copied, addr, value) matches Run::Done(Virtual { vm: after, .. }) ==> {
            &&& only_words_changed(words, vm, after)
            &&& uniform(after)
            &&& properties::page_wise(after)
        },
{
    let b = paging::base::<S>();
    match relocation::put(vm, copied, addr, value) {
        Run::Done(Virtual { vm: after, .. }) => {
            properties::lemma_written_word_is_read_back(vm, copied, addr, value);
            arith::lemma_floor_facts(addr as int, b);
            let page = relocation::page_of::<S>(addr) as int;
            assert(page == arith::floor_to(addr as int, b));
            let owned = relocation::with_owned_page(vm, copied, page as u64);
            assert forall|v: int| #[trigger] vm.contains_key(v) implies {
                &&& !in_words(words, v) ==> after[v].byte == vm[v].byte
                &&& after[v].size == vm[v].size
                &&& after[v].flags.executable == vm[v].flags.executable
                &&& vm[v].flags.writable ==> after[v].flags.writable
                &&& after[v].flags.writable ==> vm[v].flags.writable || page_has_word::<S>(
                    words,
                    v,
                )
                &&& after[v].flags == owned[v].flags
            } by {
                assert(owned.contains_key(v));
                assert(after[v].flags == owned[v].flags);
                if page <= v < page + b {
                    assert(vm[v].flags == vm[page].flags);
                    assert(page_has_word::<S>(words, v));
                }
                if addr <= v < addr + 8 {
                    assert(in_words(words, v));
                }
            }
            assert forall|p: int, v: int|
                #![trigger after[p], after[v]]
                p % b == 0 && p <= v < p + b && after.contains_key(p) && after.contains_key(
                    v,
                ) implies after[v].flags == after[p].flags by {
                assert(vm.contains_key(p) && vm.contains_key(v));
                assert(vm[v].flags == vm[p].flags);
                if page <= v < page + b && p != page {
                    arith::lemma_multiples_apart(p, page, b);
                }
                if page <= p < page + b && p != page {
                    arith::lemma_multiples_apart(page, p, b);
                }
            }
        },
        _ => {},
    }
}

/// Adding the load base to words of the list changes the words only.
proof fn lemma_adjust_words<S: PageSize>(
    words: spec_fn(u64) -> bool,
    vm: Map<int, Cell<S>>,
    copied: Seq<u64>,
    list: Seq<u64>,
    load_base: i64,
)
    requires
        properties::page_wise(vm),
        uniform(vm),
        forall|p: int| 0 <= p < list.len() ==> words(#[trigger] list[p]),
    ensures
        properties::adjust_all(vm, copied, list, load_base) matches Run::Done(
            Virtual { vm: after, .. },
        ) ==> only_words_changed(words, vm, after) && uniform(after),
    decreases list.len(),
{
    if list.len() > 0 {
        let addr = list[0];
        let rest = list.skip(1);
        let value = arith::rebased(properties::word_at(vm, addr), load_base);
        match relocation::adjust(Virtual { vm, copied }, addr, load_base) {
            Run::Done(Virtual { vm: next, copied: next_copied }) => {
                assert(relocation::put(vm, copied, addr, value) == Run::Done(
                    Virtual { vm: next, copied: next_copied },
                ));
                lemma_put_word(words, vm, copied, addr, value);
                assert forall|p: int| 0 <= p < rest.len() implies words(#[trigger] rest[p]) by {
                    assert(words(list[p + 1]));
                }
                lemma_adjust_words(words, next, next_copied, rest, load_base);
                match properties::adjust_all(next, next_copied, rest, load_base) {
                    Run::Done(Virtual { vm: after, .. }) => {
                        lemma_words_changed_twice(words, vm, next, after);
                    },
                    _ => {},
                }
            },
            _ => {},
        }
    }
}

/// Applying RELA entries changes the words only that they name.
proof fn lemma_rela_changes<S: PageSize>(
    words: spec_fn(u64) -> bool,
    vm: Map<int, Cell<S>>,
    copied: Seq<u64>,
    table: u64,
    first: int,
    count: int,
    load_base: i64,
    expected: u32,
)
    requires
        properties::page_wise(vm),
        uniform(vm),
        rela_keeps_table(vm, table, first, count, load_base),
        forall|i: int|
            first <= i < count ==> words(
                #[trigger] properties::rela_target(vm, table, i, load_base),
            ),
    ensures
        relocation::rela_run(
            Virtual { vm, copied },
            table,
            first,
            count,
            load_base,
            expected,
        ) matches Run::Done(Virtual { vm: after, .. }) ==> {
            &&& only_words_changed(words, vm, after)
            &&& uniform(after)
        },
    decreases count - first,
{
    if first < count {
        let target = properties::rela_target(vm, table, first, load_base);
        let value = properties::rela_value(vm, table, first, load_base);
        properties::lemma_rela_entry(vm, copied, table, first, load_base, expected);
        match relocation::put(vm, copied, target, value) {
            Run::Done(Virtual { vm: next, copied: next_copied }) => {
                lemma_put_word(words, vm, copied, target, value);
                lemma_rela_entries_kept(
                    vm,
                    copied,
                    table,
                    first,
                    count,
                    load_base,
                    next,
                    next_copied,
                );
                assert forall|i: int| first + 1 <= i < count implies words(
                    #[trigger] properties::rela_target(next, table, i, load_base),
                ) by {
                    assert(words(properties::rela_target(vm, table, i, load_base)));
                }
                lemma_rela_changes(
                    words,
                    next,
                    next_copied,
                    table,
                    first + 1,
                    count,
                    load_base,
                    expected,
                );
                match relocation::rela_run(
                    Virtual { vm: next, copied: next_copied },
                    table,
                    first + 1,
                    count,
                    load_base,
                    expected,
                ) {
                    Run::Done(Virtual { vm: after, .. }) => {
                        lemma_words_changed_twice(words, vm, next, after);
                    },
                    _ => {},
                }
            },
            _ => {},
        }
    }
}

/// The words that the tables name.
pub open spec fn named_words<S: PageSize>(
    tables: Tables,
    load_base: i64,
    vm: Map<int, Cell<S>>,
) -> spec_fn(u64) -> bool {
    |addr: u64|
        {
            ||| exists|i: int|
                0 <= i < tables.rela_count && #[trigger] properties::rela_target(
                    vm,
                    tables.rela_at,
                    i,
                    load_base,
                ) == addr
            ||| relr_has(tables, load_base, addr)
        }
}

/// Processing a dynamic segment changes the words only that its tables name.
pub proof fn lemma_dynamic_segment_changes<S: PageSize>(
    vm: Map<int, Cell<S>>,
    copied: Seq<u64>,
    entries: Seq<DynamicEntry>,
    load_base: i64,
    e_machine: u16,
    tables: Tables,
)
    requires
        properties::page_wise(vm),
        uniform(vm),
        described(tables, entries, load_base, vm),
        undisturbed(tables, load_base, vm),
    ensures
        elf_loading::dynamic_run(
            Virtual { vm, copied },
            DynamicView::Entries(entries),
            load_base,
            e_machine,
        ) matches Run::Done(Virtual { vm: after, .. }) ==> only_words_changed(
            named_words(tables, load_base, vm),
            vm,
            after,
        ),
{
    let words = named_words(tables, load_base, vm);
    lemma_tag_value(entries, DT_RELA);
    lemma_tag_value(entries, DT_RELASZ);
    lemma_tag_value(entries, DT_RELAENT);
    lemma_tag_value(entries, DT_RELR);
    lemma_tag_value(entries, DT_RELRSZ);
    lemma_tag_value(entries, DT_RELRENT);
    let start = Virtual { vm, copied };
    let run = elf_loading::dynamic_run(
        start,
        DynamicView::Entries(entries),
        load_base,
        e_machine,
    );
    if let Run::Done(Virtual { vm: after, .. }) = run {
        let count = tables.rela_count;
        if let Run::Done(Virtual { vm: mid, copied: mid_copied }) = elf_loading::dynamic_rela_run(
            start,
            entries,
            load_base,
            e_machine,
        ) {
            if no_tag(entries, DT_RELA) {
                assert(mid == vm);
            } else {
                let expected = relocation::relative_type(e_machine).unwrap();
                let (addr, size) = choose|addr: u64, size: u64|
                    {
                        &&& #[trigger] tag_value(entries, DT_RELA, addr)
                        &&& #[trigger] tag_value(entries, DT_RELASZ, size)
                        &&& tables.rela_at == laws::moved(addr, load_base)
                        &&& tables.rela_count == size as int / 24
                    };
                assert(elf_loading::last_value(entries, DT_RELA) == Some(addr));
                assert(elf_loading::last_value(entries, DT_RELASZ) == Some(size));
                lemma_rela_words(vm, copied, tables.rela_at, 0, count, load_base, expected);
                lemma_rela_changes(
                    words,
                    vm,
                    copied,
                    tables.rela_at,
                    0,
                    count,
                    load_base,
                    expected,
                );
                assert(relocation::rela_run(
                    start,
                    tables.rela_at,
                    0,
                    count,
                    load_base,
                    expected,
                ) == Run::Done(Virtual { vm: mid, copied: mid_copied }));
            }
            lemma_relr_changes(words, mid, mid_copied, entries, load_base, tables, vm, after);
            lemma_words_changed_twice(words, vm, mid, after);
        }
    }
}

/// The words of a RELR table, read from a memory in which the table is as it was.
proof fn lemma_relr_list<S: PageSize>(
    mid: Map<int, Cell<S>>,
    load_base: i64,
    tables: Tables,
    vm: Map<int, Cell<S>>,
)
    requires
        forall|j: int|
            0 <= j < tables.relr.len() ==> relocation::fetch(
                vm,
                properties::relr_entry(tables.relr_at, j),
            ) == Fetch::Word(#[trigger] tables.relr[j]),
        undisturbed(tables, load_base, vm),
        forall|other: u64|
            clear_of_rela(tables, load_base, vm, other) ==> #[trigger] relocation::fetch(mid, other)
                == relocation::fetch(vm, other),
    ensures
        ({
            let words = properties::relr_words(
                mid,
                0,
                tables.relr_at,
                0,
                tables.relr.len() as int,
                load_base,
            );
            &&& forall|p: int|
                0 <= p < words.len() ==> relr_has(tables, load_base, #[trigger] words[p])
            &&& forall|i: int|
                0 <= i < tables.relr.len() ==> properties::spares(
                    words,
                    #[trigger] properties::relr_entry(tables.relr_at, i),
                )
        }),
{
    let table = tables.relr;
    let count = table.len() as int;
    let words = properties::relr_words(mid, 0, tables.relr_at, 0, count, load_base);
    assert forall|j: int| 0 <= j < table.len() implies properties::word_at(
        mid,
        properties::relr_entry(tables.relr_at, j),
    ) == #[trigger] table[j] by {
        let entry = properties::relr_entry(tables.relr_at, j);
        assert(clear_of_rela(tables, load_base, vm, entry)) by {
            assert forall|i: int| 0 <= i < tables.rela_count implies properties::apart(
                #[trigger] properties::rela_target(vm, tables.rela_at, i, load_base),
                entry,
            ) by {}
        }
        assert(relocation::fetch(mid, entry) == relocation::fetch(vm, entry));
    }
    assert(at_base(table, load_base, 0, 0)) by {
        assert(bitmaps_between(table, -1, 0));
        vstd::arithmetic::div_mod::lemma_small_mod(0, 0x1_0000_0000_0000_0000);
    }
    lemma_table_words(mid, 0, tables.relr_at, 0, load_base, table);
    assert forall|p: int| 0 <= p < words.len() implies relr_has(
        tables,
        load_base,
        #[trigger] words[p],
    ) by {
        assert(named_from(table, load_base, 0, words[p]));
    }
    assert forall|i: int| 0 <= i < count implies properties::spares(
        words,
        #[trigger] properties::relr_entry(tables.relr_at, i),
    ) by {
        assert forall|p: int| 0 <= p < words.len() implies properties::apart(
            #[trigger] words[p],
            properties::relr_entry(tables.relr_at, i),
        ) by {
            assert(relr_has(tables, load_base, words[p]));
        }
    }
}

/// The RELR part of processing a dynamic segment changes the words only that the table names.
proof fn lemma_relr_changes<S: PageSize>(
    words: spec_fn(u64) -> bool,
    mid: Map<int, Cell<S>>,
    mid_copied: Seq<u64>,
    entries: Seq<DynamicEntry>,
    load_base: i64,
    tables: Tables,
    vm: Map<int, Cell<S>>,
    after: Map<int, Cell<S>>,
)
    requires
        properties::page_wise(mid),
        uniform(mid),
        described(tables, entries, load_base, vm),
        undisturbed(tables, load_base, vm),
        forall|addr: u64| #[trigger] relr_has(tables, load_base, addr) ==> words(addr),
        forall|other: u64|
            clear_of_rela(tables, load_base, vm, other) ==> #[trigger] relocation::fetch(mid, other)
                == relocation::fetch(vm, other),
        elf_loading::dynamic_relr_run(
            Virtual { vm: mid, copied: mid_copied },
            entries,
            load_base,
        ) matches Run::Done(done) && done.vm == after,
    ensures
        only_words_changed(words, mid, after),
{
    lemma_tag_value(entries, DT_RELR);
    lemma_tag_value(entries, DT_RELRSZ);
    lemma_tag_value(entries, DT_RELRENT);
    if no_tag(entries, DT_RELR) {
        assert(after == mid);
    } else {
        let (at, size) = choose|addr: u64, size: u64|
            {
                &&& #[trigger] tag_value(entries, DT_RELR, addr)
                &&& #[trigger] tag_value(entries, DT_RELRSZ, size)
                &&& tables.relr_at == laws::moved(addr, load_base)
                &&& tables.relr.len() == size as int / 8
            };
        assert(elf_loading::last_value(entries, DT_RELR) == Some(at));
        assert(elf_loading::last_value(entries, DT_RELRSZ) == Some(size));
        let count = tables.relr.len() as int;
        let list = properties::relr_words(mid, 0, tables.relr_at, 0, count, load_base);
        lemma_relr_list(mid, load_base, tables, vm);
        properties::lemma_relr_relocates(
            mid,
            mid_copied,
            0,
            tables.relr_at,
            0,
            count,
            load_base,
        );
        assert forall|p: int| 0 <= p < list.len() implies words(#[trigger] list[p]) by {
            assert(relr_has(tables, load_base, list[p]));
        }
        lemma_adjust_words(words, mid, mid_copied, list, load_base);
    }
}

/// Any word.
pub open spec fn all_words() -> spec_fn(u64) -> bool {
    |addr: u64| true
}

/// A step of relocation: words change, and their pages can be written afterwards.
pub open spec fn relocation_step<S: PageSize>(
    vm: Map<int, Cell<S>>,
    after: Map<int, Cell<S>>,
) -> bool {
    &&& only_words_changed(all_words(), vm, after)
    &&& uniform(after)
    &&& properties::page_wise(after)
}

/// Adding the load base to a word is a step of relocation.
proof fn lemma_adjust_step<S: PageSize>(memory: Virtual<S>, addr: u64, load_base: i64)
    requires
        properties::page_wise(memory.vm),
        uniform(memory.vm),
    ensures
        relocation::adjust(memory, addr, load_base) matches Run::Done(after)
            ==> relocation_step(memory.vm, after.vm),
{
    let value = arith::rebased(properties::word_at(memory.vm, addr), load_base);
    lemma_put_word(all_words(), memory.vm, memory.copied, addr, value);
}

/// Applying RELA entries is a step of relocation.
proof fn lemma_rela_steps<S: PageSize>(
    memory: Virtual<S>,
    table: u64,
    first: int,
    count: int,
    load_base: i64,
    expected: u32,
)
    requires
        properties::page_wise(memory.vm),
        uniform(memory.vm),
    ensures
        relocation::rela_run(memory, table, first, count, load_base, expected) matches Run::Done(
            after,
        ) ==> relocation_step(memory.vm, after.vm),
    decreases count - first,
{
    if first < count {
        let Virtual { vm, copied } = memory;
        let target = properties::rela_target(vm, table, first, load_base);
        let value = properties::rela_value(vm, table, first, load_base);
        properties::lemma_rela_entry(vm, copied, table, first, load_base, expected);
        lemma_put_word(all_words(), vm, copied, target, value);
        match relocation::put(vm, copied, target, value) {
            Run::Done(next) => {
                lemma_rela_steps(next, table, first + 1, count, load_base, expected);
                match relocation::rela_run(next, table, first + 1, count, load_base, expected) {
                    Run::Done(after) => {
                        lemma_words_changed_twice(all_words(), vm, next.vm, after.vm);
                    },
                    _ => {},
                }
            },
            _ => {},
        }
    }
}

/// Applying a RELR bitmap is a step of relocation.
proof fn lemma_bitmap_steps<S: PageSize>(
    memory: Virtual<S>,
    addr: u64,
    bitmap: u64,
    load_base: i64,
)
    requires
        properties::page_wise(memory.vm),
        uniform(memory.vm),
    ensures
        relocation::bitmap_run(memory, addr, bitmap, load_base) matches Run::Done(after)
            ==> relocation_step(memory.vm, after.vm),
    decreases bitmap,
{
    let behind = arith::wrapped_sum(addr, 8);
    if bitmap != 0 {
        if bitmap % 2 == 0 {
            lemma_bitmap_steps(memory, behind, bitmap / 2, load_base);
        } else {
            lemma_adjust_step(memory, addr, load_base);
            match relocation::adjust(memory, addr, load_base) {
                Run::Done(next) => {
                    lemma_bitmap_steps(next, behind, bitmap / 2, load_base);
                    match relocation::bitmap_run(next, behind, bitmap / 2, load_base) {
                        Run::Done(after) => {
                            lemma_words_changed_twice(
                                all_words(),
                                memory.vm,
                                next.vm,
                                after.vm,
                            );
                        },
                        _ => {},
                    }
                },
                _ => {},
            }
        }
    }
}

/// Applying RELR entries is a step of relocation.
proof fn lemma_relr_steps<S: PageSize>(
    memory: Virtual<S>,
    base: u64,
    table: u64,
    first: int,
    count: int,
    load_base: i64,
)
    requires
        properties::page_wise(memory.vm),
        uniform(memory.vm),
    ensures
        relocation::relr_run(memory, base, table, first, count, load_base) matches Run::Done(after)
            ==> relocation_step(memory.vm, after.vm),
    decreases count - first,
{
    if first < count {
        match relocation::fetch(memory.vm, arith::wrapped_sum(table, first * 8)) {
            Fetch::Word(entry) => {
                if entry % 2 == 0 {
                    lemma_adjust_step(memory, arith::rebased(entry, load_base), load_base);
                } else {
                    lemma_bitmap_steps(memory, base, entry / 2, load_base);
                }
                let next_base = relocation::relr_next_base(entry, base, load_base);
                match relocation::relr_entry_run(memory, entry, base, load_base) {
                    Run::Done(next) => {
                        lemma_relr_steps(next, next_base, table, first + 1, count, load_base);
                        match relocation::relr_run(
                            next,
                            next_base,
                            table,
                            first + 1,
                            count,
                            load_base,
                        ) {
                            Run::Done(after) => {
                                lemma_words_changed_twice(
                                    all_words(),
                                    memory.vm,
                                    next.vm,
                                    after.vm,
                                );
                            },
                            _ => {},
                        }
                    },
                    _ => {},
                }
            },
            _ => {},
        }
    }
}

/// Processing a dynamic segment is a step of relocation.
proof fn lemma_dynamic_steps<S: PageSize>(
    memory: Virtual<S>,
    dynamic: DynamicView,
    load_base: i64,
    e_machine: u16,
)
    requires
        properties::page_wise(memory.vm),
        uniform(memory.vm),
    ensures
        elf_loading::dynamic_run(memory, dynamic, load_base, e_machine) matches Run::Done(after)
            ==> relocation_step(memory.vm, after.vm),
{
    if let DynamicView::Entries(entries) = dynamic {
        match elf_loading::dynamic_rela_run(memory, entries, load_base, e_machine) {
            Run::Done(next) => {
                match (
                    elf_loading::last_value(entries, DT_RELA),
                    elf_loading::last_value(entries, DT_RELASZ),
                    relocation::relative_type(e_machine),
                ) {
                    (Some(offset), Some(size), Some(expected)) => {
                        lemma_rela_steps(
                            memory,
                            arith::rebased(offset, load_base),
                            0,
                            size as int / 24,
                            load_base,
                            expected,
                        );
                    },
                    _ => {},
                }
                assert(relocation_step(memory.vm, next.vm));
                match (
                    elf_loading::last_value(entries, DT_RELR),
                    elf_loading::last_value(entries, DT_RELRSZ),
                ) {
                    (Some(offset), Some(size)) => {
                        lemma_relr_steps(
                            next,
                            0,
                            arith::rebased(offset, load_base),
                            0,
                            size as int / 8,
                            load_base,
                        );
                    },
                    _ => {},
                }
                match elf_loading::dynamic_relr_run(next, entries, load_base) {
                    Run::Done(after) => {
                        assert(relocation_step(next.vm, after.vm));
                        lemma_words_changed_twice(all_words(), memory.vm, next.vm, after.vm);
                    },
                    _ => {},
                }
            },
            _ => {},
        }
    }
}

/// Relocating a kernel changes neither what is mapped nor what can be executed, and takes no
/// permission to write.
pub proof fn lemma_relocation_steps<S: PageSize>(
    memory: Virtual<S>,
    segments: Seq<ProgramHeader>,
    next: int,
    dynamic: DynamicView,
    load_base: i64,
    e_machine: u16,
)
    requires
        properties::page_wise(memory.vm),
        uniform(memory.vm),
    ensures
        elf_loading::relocate_run(
            memory,
            segments,
            next,
            dynamic,
            load_base,
            e_machine,
        ) matches Run::Done(after) ==> relocation_step(memory.vm, after.vm),
    decreases segments.len() - next,
{
    if 0 <= next < segments.len() {
        if segments[next].p_type == PT_DYNAMIC {
            lemma_dynamic_steps(memory, dynamic, load_base, e_machine);
            match elf_loading::dynamic_run(memory, dynamic, load_base, e_machine) {
                Run::Done(then) => {
                    lemma_relocation_steps(
                        then,
                        segments,
                        next + 1,
                        dynamic,
                        load_base,
                        e_machine,
                    );
                    match elf_loading::relocate_run(
                        then,
                        segments,
                        next + 1,
                        dynamic,
                        load_base,
                        e_machine,
                    ) {
                        Run::Done(after) => {
                            lemma_words_changed_twice(
                                all_words(),
                                memory.vm,
                                then.vm,
                                after.vm,
                            );
                        },
                        _ => {},
                    }
                },
                _ => {},
            }
        } else {
            lemma_relocation_steps(memory, segments, next + 1, dynamic, load_base, e_machine);
        }
    }
}

/// The type of the relocations that add the load base, by machine: x86_64, 64-bit ARM and RISC-V.
pub open spec fn relative_number(e_machine: u16) -> Option<u64> {
    if e_machine == 62 {
        Some(8)
    } else if e_machine == 183 {
        Some(1027)
    } else if e_machine == 243 {
        Some(3)
    } else {
        None
    }
}

/// A RELA entry that can be applied: it can be read, it is of the type that adds the load base
/// and uses no symbol, and the word that it names can be read.
pub open spec fn rela_entry_valid<S: PageSize>(
    vm: Map<int, Cell<S>>,
    table: u64,
    i: int,
    load_base: i64,
    e_machine: u16,
) -> bool {
    &&& relocation::fetch(vm, properties::rela_field(table, i, 0)) is Word
    &&& relocation::fetch(vm, properties::rela_field(table, i, 2)) is Word
    &&& relative_number(e_machine) matches Some(number) && relocation::fetch(
        vm,
        properties::rela_field(table, i, 1),
    ) == Fetch::Word(number)
    &&& relocation::fetch(vm, properties::rela_target(vm, table, i, load_base)) is Word
}

/// Relocation tables that can be applied. The dynamic table gives all three values for each of
/// them or, for RELA, none, with the entry sizes of 24 and 8 bytes, and every entry and every
/// word that is named can be read.
pub open spec fn tables_valid<S: PageSize>(
    tables: Tables,
    entries: Seq<DynamicEntry>,
    load_base: i64,
    e_machine: u16,
    vm: Map<int, Cell<S>>,
) -> bool {
    &&& if no_tag(entries, DT_RELA) {
        no_tag(entries, DT_RELASZ) && no_tag(entries, DT_RELAENT)
    } else {
        &&& !no_tag(entries, DT_RELASZ)
        &&& tag_value(entries, DT_RELAENT, 24)
        &&& relative_number(e_machine) is Some
    }
    &&& no_tag(entries, DT_RELR) || {
        &&& !no_tag(entries, DT_RELRSZ)
        &&& tag_value(entries, DT_RELRENT, 8)
    }
    &&& forall|i: int|
        0 <= i < tables.rela_count ==> #[trigger] rela_entry_valid(
            vm,
            tables.rela_at,
            i,
            load_base,
            e_machine,
        )
    &&& forall|addr: u64| #[trigger]
        relr_has(tables, load_base, addr) ==> relocation::fetch(vm, addr) is Word
}

/// The pages that were copied for writing are among `pages`, each once, and there is room to
/// record all of these.
pub open spec fn room_for(copied: Seq<u64>, pages: Seq<u64>) -> bool {
    &&& copied.no_duplicates()
    &&& forall|k: u64| #[trigger] copied.contains(k) ==> pages.contains(k)
    &&& pages.len() <= 1024
}

/// There is room for one more of the pages.
proof fn lemma_room(copied: Seq<u64>, pages: Seq<u64>, page: u64)
    requires
        room_for(copied, pages),
        pages.contains(page),
    ensures
        !relocation::list_full(copied, page),
        room_for(relocation::with_page(copied, page), pages),
{
    if !copied.contains(page) {
        let more = copied.push(page);
        assert(more.no_duplicates()) by {
            assert forall|i: int, j: int|
                0 <= i < more.len() && 0 <= j < more.len() && i != j implies more[i] != more[j] by {
                if i < copied.len() && j < copied.len() {
                    assert(copied[i] != copied[j]);
                } else if i < copied.len() {
                    assert(copied.contains(copied[i]));
                } else {
                    assert(copied.contains(copied[j]));
                }
            }
        }
        assert forall|k: u64| #[trigger] more.contains(k) implies pages.contains(k) by {
            let i = choose|i: int| 0 <= i < more.len() && more[i] == k;
            if i < copied.len() {
                assert(copied.contains(k));
            }
        }
        more.unique_seq_to_set();
        pages.lemma_cardinality_of_set();
        assert(more.to_set().subset_of(pages.to_set())) by {
            assert forall|k: u64| #[trigger] more.to_set().contains(k) implies pages.to_set().contains(
                k,
            ) by {
                assert(more.contains(k));
            }
        }
        vstd::set_lib::lemma_len_subset(more.to_set(), pages.to_set());
    }
}

/// A word can be read in one memory if it can in another in which the same is mapped.
proof fn lemma_readable_in_both<S: PageSize>(
    first: Map<int, Cell<S>>,
    second: Map<int, Cell<S>>,
    addr: u64,
)
    requires
        forall|v: int| #[trigger] second.contains_key(v) == first.contains_key(v),
    ensures
        (relocation::fetch(second, addr) is Word) == (relocation::fetch(first, addr) is Word),
{
    assert(second.contains_key(relocation::page_of::<S>(addr) as int) == first.contains_key(
        relocation::page_of::<S>(addr) as int,
    ));
}

/// One RELA entry can be applied if and only if it is valid, as long as there is room for its
/// page.
proof fn lemma_rela_entry_applies<S: PageSize>(
    vm: Map<int, Cell<S>>,
    copied: Seq<u64>,
    table: u64,
    i: int,
    load_base: i64,
    e_machine: u16,
    expected: u32,
    pages: Seq<u64>,
)
    requires
        relocation::relative_type(e_machine) == Some(expected),
    ensures
        ({
            let target = properties::rela_target(vm, table, i, load_base);
            let page = relocation::page_of::<S>(target);
            let step = relocation::rela_step(
                Virtual { vm, copied },
                arith::wrapped_sum(table, i * 24),
                load_base,
                expected,
            );
            &&& step is Done ==> rela_entry_valid(vm, table, i, load_base, e_machine)
            &&& step is Done ==> step->Done_0.copied == relocation::with_page(copied, page)
            &&& rela_entry_valid(vm, table, i, load_base, e_machine) && room_for(copied, pages)
                && pages.contains(page) ==> step is Done && room_for(step->Done_0.copied, pages)
        }),
{
    let target = properties::rela_target(vm, table, i, load_base);
    let at = arith::wrapped_sum(table, i * 24);
    let page = relocation::page_of::<S>(target);
    assert(expected as u64 == relative_number(e_machine).unwrap());
    assert(properties::rela_field(table, i, 0) == at) by {
        vstd::arithmetic::div_mod::lemma_small_mod(
            at as nat,
            arith::address_space_size() as nat,
        );
    }
    assert(properties::rela_field(table, i, 1) == arith::wrapped_sum(at, 8));
    assert(properties::rela_field(table, i, 2) == arith::wrapped_sum(at, 16));
    let info = properties::word_at(vm, properties::rela_field(table, i, 1));
    assert(info / 0x1_0000_0000 == 0 && info % 0x1_0000_0000 == expected <==> info == expected);
    if room_for(copied, pages) && pages.contains(page) {
        lemma_room(copied, pages, page);
    }
}

/// The RELA entries from number `first` on are valid.
pub open spec fn rela_valid_from<S: PageSize>(
    vm: Map<int, Cell<S>>,
    table: u64,
    first: int,
    count: int,
    load_base: i64,
    e_machine: u16,
) -> bool {
    forall|i: int|
        first <= i < count ==> #[trigger] rela_entry_valid(vm, table, i, load_base, e_machine)
}

/// Applying one RELA entry keeps the others valid or not.
proof fn lemma_rela_stays_valid<S: PageSize>(
    vm: Map<int, Cell<S>>,
    next: Map<int, Cell<S>>,
    table: u64,
    i: int,
    load_base: i64,
    e_machine: u16,
)
    requires
        forall|v: int| #[trigger] next.contains_key(v) == vm.contains_key(v),
        properties::rela_target(next, table, i, load_base) == properties::rela_target(
            vm,
            table,
            i,
            load_base,
        ),
        forall|field: int|
            0 <= field < 3 ==> relocation::fetch(
                next,
                #[trigger] properties::rela_field(table, i, field),
            ) == relocation::fetch(vm, properties::rela_field(table, i, field)),
    ensures
        rela_entry_valid(next, table, i, load_base, e_machine) == rela_entry_valid(
            vm,
            table,
            i,
            load_base,
            e_machine,
        ),
{
    assert(relocation::fetch(next, properties::rela_field(table, i, 0)) == relocation::fetch(
        vm,
        properties::rela_field(table, i, 0),
    ));
    assert(relocation::fetch(next, properties::rela_field(table, i, 1)) == relocation::fetch(
        vm,
        properties::rela_field(table, i, 1),
    ));
    assert(relocation::fetch(next, properties::rela_field(table, i, 2)) == relocation::fetch(
        vm,
        properties::rela_field(table, i, 2),
    ));
    lemma_readable_in_both(vm, next, properties::rela_target(vm, table, i, load_base));
}

/// RELA entries that are applied are valid.
proof fn lemma_rela_applied<S: PageSize>(
    vm: Map<int, Cell<S>>,
    copied: Seq<u64>,
    table: u64,
    first: int,
    count: int,
    load_base: i64,
    e_machine: u16,
    expected: u32,
)
    requires
        properties::page_wise(vm),
        rela_keeps_table(vm, table, first, count, load_base),
        relocation::relative_type(e_machine) == Some(expected),
        relocation::rela_run(
            Virtual { vm, copied },
            table,
            first,
            count,
            load_base,
            expected,
        ) is Done,
    ensures
        rela_valid_from(vm, table, first, count, load_base, e_machine),
    decreases count - first,
{
    if first < count {
        let target = properties::rela_target(vm, table, first, load_base);
        let value = properties::rela_value(vm, table, first, load_base);
        properties::lemma_rela_entry(vm, copied, table, first, load_base, expected);
        lemma_rela_entry_applies(
            vm,
            copied,
            table,
            first,
            load_base,
            e_machine,
            expected,
            Seq::empty(),
        );
        if let Run::Done(Virtual { vm: next, copied: next_copied }) = relocation::put(
            vm,
            copied,
            target,
            value,
        ) {
            properties::lemma_written_word_is_read_back(vm, copied, target, value);
            lemma_rela_entries_kept(
                vm,
                copied,
                table,
                first,
                count,
                load_base,
                next,
                next_copied,
            );
            lemma_rela_applied(
                next,
                next_copied,
                table,
                first + 1,
                count,
                load_base,
                e_machine,
                expected,
            );
            assert forall|i: int| first <= i < count implies #[trigger] rela_entry_valid(
                vm,
                table,
                i,
                load_base,
                e_machine,
            ) by {
                if i > first {
                    assert(rela_entry_valid(next, table, i, load_base, e_machine));
                    assert(properties::rela_target(next, table, i, load_base)
                        == properties::rela_target(vm, table, i, load_base));
                    lemma_rela_stays_valid(vm, next, table, i, load_base, e_machine);
                }
            }
        }
    }
}

/// The pages of the words that RELA entries name are among `pages`.
pub open spec fn rela_pages_in<S: PageSize>(
    vm: Map<int, Cell<S>>,
    table: u64,
    first: int,
    count: int,
    load_base: i64,
    pages: Seq<u64>,
) -> bool {
    forall|i: int|
        first <= i < count ==> pages.contains(
            relocation::page_of::<S>(
                #[trigger] properties::rela_target(vm, table, i, load_base),
            ),
        )
}

/// RELA entries that are valid are applied, if there is room for their pages.
proof fn lemma_rela_applies<S: PageSize>(
    vm: Map<int, Cell<S>>,
    copied: Seq<u64>,
    table: u64,
    first: int,
    count: int,
    load_base: i64,
    e_machine: u16,
    expected: u32,
    pages: Seq<u64>,
)
    requires
        properties::page_wise(vm),
        rela_keeps_table(vm, table, first, count, load_base),
        relocation::relative_type(e_machine) == Some(expected),
        rela_valid_from(vm, table, first, count, load_base, e_machine),
        room_for(copied, pages),
        rela_pages_in(vm, table, first, count, load_base, pages),
    ensures
        relocation::rela_run(
            Virtual { vm, copied },
            table,
            first,
            count,
            load_base,
            expected,
        ) matches Run::Done(done) && room_for(done.copied, pages) && (forall|v: int| #[trigger]
            done.vm.contains_key(v) == vm.contains_key(v)),
    decreases count - first,
{
    if first < count {
        let target = properties::rela_target(vm, table, first, load_base);
        let value = properties::rela_value(vm, table, first, load_base);
        assert(rela_entry_valid(vm, table, first, load_base, e_machine));
        properties::lemma_rela_entry(vm, copied, table, first, load_base, expected);
        lemma_rela_entry_applies(
            vm,
            copied,
            table,
            first,
            load_base,
            e_machine,
            expected,
            pages,
        );
        if let Run::Done(Virtual { vm: next, copied: next_copied }) = relocation::put(
            vm,
            copied,
            target,
            value,
        ) {
            properties::lemma_written_word_is_read_back(vm, copied, target, value);
            lemma_rela_entries_kept(
                vm,
                copied,
                table,
                first,
                count,
                load_base,
                next,
                next_copied,
            );
            assert forall|i: int| first + 1 <= i < count implies #[trigger] rela_entry_valid(
                next,
                table,
                i,
                load_base,
                e_machine,
            ) by {
                assert(rela_entry_valid(vm, table, i, load_base, e_machine));
                assert(properties::rela_target(next, table, i, load_base)
                    == properties::rela_target(vm, table, i, load_base));
                lemma_rela_stays_valid(vm, next, table, i, load_base, e_machine);
            }
            assert forall|i: int| first + 1 <= i < count implies pages.contains(
                relocation::page_of::<S>(
                    #[trigger] properties::rela_target(next, table, i, load_base),
                ),
            ) by {
                assert(properties::rela_target(next, table, i, load_base)
                    == properties::rela_target(vm, table, i, load_base));
            }
            lemma_rela_applies(
                next,
                next_copied,
                table,
                first + 1,
                count,
                load_base,
                e_machine,
                expected,
                pages,
            );
            let rest = relocation::rela_run(
                Virtual { vm: next, copied: next_copied },
                table,
                first + 1,
                count,
                load_base,
                expected,
            );
            assert forall|v: int| #[trigger]
                rest->Done_0.vm.contains_key(v) == vm.contains_key(v) by {
                assert(next.contains_key(v) == vm.contains_key(v));
            }
        }
    }
}

/// The load base can be added to words if and only if they can be read, as long as there is room
/// for their pages.
proof fn lemma_words_apply<S: PageSize>(
    vm: Map<int, Cell<S>>,
    copied: Seq<u64>,
    words: Seq<u64>,
    load_base: i64,
    pages: Seq<u64>,
)
    requires
        properties::page_wise(vm),
    ensures
        ({
            let run = properties::adjust_all(vm, copied, words, load_base);
            &&& run is Done ==> forall|p: int|
                0 <= p < words.len() ==> relocation::fetch(vm, #[trigger] words[p]) is Word
            &&& room_for(copied, pages) && (forall|p: int|
                0 <= p < words.len() ==> relocation::fetch(vm, #[trigger] words[p]) is Word
                    && pages.contains(relocation::page_of::<S>(words[p]))) ==> run is Done
        }),
    decreases words.len(),
{
    if words.len() > 0 {
        let addr = words[0];
        let rest = words.skip(1);
        let value = arith::rebased(properties::word_at(vm, addr), load_base);
        let page = relocation::page_of::<S>(addr);
        let fits = room_for(copied, pages) && (forall|p: int|
            0 <= p < words.len() ==> relocation::fetch(vm, #[trigger] words[p]) is Word
                && pages.contains(relocation::page_of::<S>(words[p])));
        if fits {
            assert(relocation::fetch(vm, words[0]) is Word);
            lemma_room(copied, pages, page);
        }
        match relocation::adjust(Virtual { vm, copied }, addr, load_base) {
            Run::Done(Virtual { vm: next, copied: next_copied }) => {
                assert(relocation::put(vm, copied, addr, value) == Run::Done(
                    Virtual { vm: next, copied: next_copied },
                ));
                properties::lemma_written_word_is_read_back(vm, copied, addr, value);
                lemma_words_apply(next, next_copied, rest, load_base, pages);
                assert forall|p: int| 0 <= p < rest.len() implies (relocation::fetch(
                    next,
                    #[trigger] rest[p],
                ) is Word) == (relocation::fetch(vm, words[p + 1]) is Word) by {
                    lemma_readable_in_both(vm, next, rest[p]);
                }
                if properties::adjust_all(next, next_copied, rest, load_base) is Done {
                    assert forall|p: int| 0 <= p < words.len() implies relocation::fetch(
                        vm,
                        #[trigger] words[p],
                    ) is Word by {
                        if p > 0 {
                            assert(relocation::fetch(next, rest[p - 1]) is Word);
                        }
                    }
                }
                if fits {
                    assert forall|p: int| 0 <= p < rest.len() implies relocation::fetch(
                        next,
                        #[trigger] rest[p],
                    ) is Word && pages.contains(relocation::page_of::<S>(rest[p])) by {
                        assert(relocation::fetch(vm, words[p + 1]) is Word);
                    }
                }
            },
            _ => {},
        }
    }
}

/// The known machines are those whose relocation type is known.
proof fn lemma_relative_number(e_machine: u16)
    ensures
        relative_number(e_machine) is Some <==> relocation::relative_type(e_machine) is Some,
{
}

/// A tag is there if and only if it has a value.
proof fn lemma_tags(entries: Seq<DynamicEntry>)
    ensures
        forall|value: u64| #[trigger]
            tag_value(entries, DT_RELAENT, value) <==> elf_loading::last_value(entries, DT_RELAENT)
                == Some(value),
        forall|value: u64| #[trigger]
            tag_value(entries, DT_RELRENT, value) <==> elf_loading::last_value(entries, DT_RELRENT)
                == Some(value),
        no_tag(entries, DT_RELA) <==> elf_loading::last_value(entries, DT_RELA) is None,
        no_tag(entries, DT_RELASZ) <==> elf_loading::last_value(entries, DT_RELASZ) is None,
        no_tag(entries, DT_RELAENT) <==> elf_loading::last_value(entries, DT_RELAENT) is None,
        no_tag(entries, DT_RELR) <==> elf_loading::last_value(entries, DT_RELR) is None,
        no_tag(entries, DT_RELRSZ) <==> elf_loading::last_value(entries, DT_RELRSZ) is None,
        no_tag(entries, DT_RELRENT) <==> elf_loading::last_value(entries, DT_RELRENT) is None,
{
    lemma_tag_value(entries, DT_RELA);
    lemma_tag_value(entries, DT_RELASZ);
    lemma_tag_value(entries, DT_RELAENT);
    lemma_tag_value(entries, DT_RELR);
    lemma_tag_value(entries, DT_RELRSZ);
    lemma_tag_value(entries, DT_RELRENT);
}

/// Where the tables lie, as the loader reads it.
proof fn lemma_table_places<S: PageSize>(
    tables: Tables,
    entries: Seq<DynamicEntry>,
    load_base: i64,
    vm: Map<int, Cell<S>>,
)
    requires
        described(tables, entries, load_base, vm),
    ensures
        elf_loading::last_value(entries, DT_RELA) matches Some(addr) ==> {
            &&& arith::rebased(addr, load_base) == tables.rela_at
            &&& elf_loading::last_value(entries, DT_RELASZ) matches Some(size) && size as int / 24
                == tables.rela_count
        },
        elf_loading::last_value(entries, DT_RELA) is None ==> tables.rela_count == 0,
        elf_loading::last_value(entries, DT_RELR) matches Some(addr) ==> {
            &&& arith::rebased(addr, load_base) == tables.relr_at
            &&& elf_loading::last_value(entries, DT_RELRSZ) matches Some(size) && size as int / 8
                == tables.relr.len()
        },
        elf_loading::last_value(entries, DT_RELR) is None ==> tables.relr.len() == 0,
{
    lemma_tag_value(entries, DT_RELA);
    lemma_tag_value(entries, DT_RELASZ);
    lemma_tag_value(entries, DT_RELR);
    lemma_tag_value(entries, DT_RELRSZ);
    if !no_tag(entries, DT_RELA) {
        let (addr, size) = choose|addr: u64, size: u64|
            {
                &&& #[trigger] tag_value(entries, DT_RELA, addr)
                &&& #[trigger] tag_value(entries, DT_RELASZ, size)
                &&& tables.rela_at == laws::moved(addr, load_base)
                &&& tables.rela_count == size as int / 24
            };
        assert(elf_loading::last_value(entries, DT_RELA) == Some(addr));
        assert(elf_loading::last_value(entries, DT_RELASZ) == Some(size));
    }
    if !no_tag(entries, DT_RELR) {
        let (addr, size) = choose|addr: u64, size: u64|
            {
                &&& #[trigger] tag_value(entries, DT_RELR, addr)
                &&& #[trigger] tag_value(entries, DT_RELRSZ, size)
                &&& tables.relr_at == laws::moved(addr, load_base)
                &&& tables.relr.len() == size as int / 8
            };
        assert(elf_loading::last_value(entries, DT_RELR) == Some(addr));
        assert(elf_loading::last_value(entries, DT_RELRSZ) == Some(size));
    }
}

/// The list of the words that a RELR table names holds each of them.
proof fn lemma_relr_list_is_complete<S: PageSize>(
    mid: Map<int, Cell<S>>,
    load_base: i64,
    tables: Tables,
    vm: Map<int, Cell<S>>,
    addr: u64,
)
    requires
        forall|j: int|
            0 <= j < tables.relr.len() ==> relocation::fetch(
                vm,
                properties::relr_entry(tables.relr_at, j),
            ) == Fetch::Word(#[trigger] tables.relr[j]),
        undisturbed(tables, load_base, vm),
        forall|other: u64|
            clear_of_rela(tables, load_base, vm, other) ==> #[trigger] relocation::fetch(mid, other)
                == relocation::fetch(vm, other),
        relr_has(tables, load_base, addr),
    ensures
        properties::relr_words(
            mid,
            0,
            tables.relr_at,
            0,
            tables.relr.len() as int,
            load_base,
        ).contains(addr),
        forall|j: int|
            0 <= j < tables.relr.len() ==> relocation::fetch(
                mid,
                #[trigger] properties::relr_entry(tables.relr_at, j),
            ) is Word,
{
    let table = tables.relr;
    assert forall|j: int| 0 <= j < table.len() implies relocation::fetch(
        mid,
        #[trigger] properties::relr_entry(tables.relr_at, j),
    ) == Fetch::Word(table[j]) by {
        lemma_relr_entry_kept(mid, load_base, tables, vm, j);
    }
    assert forall|j: int| 0 <= j < table.len() implies properties::word_at(
        mid,
        properties::relr_entry(tables.relr_at, j),
    ) == #[trigger] table[j] by {
        assert(relocation::fetch(mid, properties::relr_entry(tables.relr_at, j)) == Fetch::Word(
            table[j],
        ));
    }
    assert(at_base(table, load_base, 0, 0)) by {
        assert(bitmaps_between(table, -1, 0));
        vstd::arithmetic::div_mod::lemma_small_mod(0, 0x1_0000_0000_0000_0000);
    }
    lemma_table_words(mid, 0, tables.relr_at, 0, load_base, table);
    let j = choose|j: int|
        0 <= j < tables.relr.len() && #[trigger] relr_names(
            tables.relr,
            load_base,
            j,
            addr as int,
        );
    let words = properties::relr_words(mid, 0, tables.relr_at, 0, table.len() as int, load_base);
    assert(once_in(words, table, load_base, j, addr));
}

/// An entry of the RELR table is still there once the RELA table is applied.
proof fn lemma_relr_entry_kept<S: PageSize>(
    mid: Map<int, Cell<S>>,
    load_base: i64,
    tables: Tables,
    vm: Map<int, Cell<S>>,
    j: int,
)
    requires
        0 <= j < tables.relr.len(),
        relocation::fetch(vm, properties::relr_entry(tables.relr_at, j)) == Fetch::Word(
            tables.relr[j],
        ),
        undisturbed(tables, load_base, vm),
        forall|other: u64|
            clear_of_rela(tables, load_base, vm, other) ==> #[trigger] relocation::fetch(mid, other)
                == relocation::fetch(vm, other),
    ensures
        relocation::fetch(mid, properties::relr_entry(tables.relr_at, j)) == Fetch::Word(
            tables.relr[j],
        ),
{
    let entry = properties::relr_entry(tables.relr_at, j);
    assert(clear_of_rela(tables, load_base, vm, entry)) by {
        assert forall|i: int| 0 <= i < tables.rela_count implies properties::apart(
            #[trigger] properties::rela_target(vm, tables.rela_at, i, load_base),
            entry,
        ) by {}
    }
    assert(relocation::fetch(mid, entry) == relocation::fetch(vm, entry));
}

/// Relocation tables that are applied are valid: whatever is wrong with them is an error.
pub proof fn lemma_applied_tables_are_valid<S: PageSize>(
    vm: Map<int, Cell<S>>,
    copied: Seq<u64>,
    entries: Seq<DynamicEntry>,
    load_base: i64,
    e_machine: u16,
    tables: Tables,
)
    requires
        properties::page_wise(vm),
        described(tables, entries, load_base, vm),
        undisturbed(tables, load_base, vm),
        elf_loading::dynamic_run(
            Virtual { vm, copied },
            DynamicView::Entries(entries),
            load_base,
            e_machine,
        ) is Done,
    ensures
        tables_valid(tables, entries, load_base, e_machine, vm),
{
    let start = Virtual { vm, copied };
    lemma_tags(entries);
    lemma_table_places(tables, entries, load_base, vm);
    lemma_relative_number(e_machine);
    let count = tables.rela_count;
    let run = elf_loading::dynamic_rela_run(start, entries, load_base, e_machine);
    let Virtual { vm: mid, copied: mid_copied } = run->Done_0;
    if !no_tag(entries, DT_RELA) {
        let expected = relocation::relative_type(e_machine).unwrap();
        lemma_rela_applied(
            vm,
            copied,
            tables.rela_at,
            0,
            count,
            load_base,
            e_machine,
            expected,
        );
        lemma_rela_words(vm, copied, tables.rela_at, 0, count, load_base, expected);
        crate::kernel_image::lemma_rela_run(
            start,
            tables.rela_at,
            0,
            count,
            load_base,
            expected,
        );
    }
    assert forall|i: int| 0 <= i < tables.rela_count implies #[trigger] rela_entry_valid(
        vm,
        tables.rela_at,
        i,
        load_base,
        e_machine,
    ) by {}
    if !no_tag(entries, DT_RELR) {
        let words = properties::relr_words(
            mid,
            0,
            tables.relr_at,
            0,
            tables.relr.len() as int,
            load_base,
        );
        lemma_relr_list(mid, load_base, tables, vm);
        properties::lemma_relr_relocates(
            mid,
            mid_copied,
            0,
            tables.relr_at,
            0,
            tables.relr.len() as int,
            load_base,
        );
        lemma_words_apply(mid, mid_copied, words, load_base, Seq::empty());
        assert forall|addr: u64| #[trigger]
            relr_has(tables, load_base, addr) implies relocation::fetch(vm, addr) is Word by {
            lemma_relr_list_is_complete(mid, load_base, tables, vm, addr);
            let p = choose|p: int| 0 <= p < words.len() && words[p] == addr;
            assert(relocation::fetch(mid, words[p]) is Word);
            lemma_readable_in_both(vm, mid, addr);
        }
    }
}

/// Relocation tables that are valid are applied, if the pages of the words that they name are no
/// more than can be recorded.
pub proof fn lemma_valid_tables_are_applied<S: PageSize>(
    vm: Map<int, Cell<S>>,
    copied: Seq<u64>,
    entries: Seq<DynamicEntry>,
    load_base: i64,
    e_machine: u16,
    tables: Tables,
    pages: Seq<u64>,
)
    requires
        properties::page_wise(vm),
        described(tables, entries, load_base, vm),
        undisturbed(tables, load_base, vm),
        tables_valid(tables, entries, load_base, e_machine, vm),
        room_for(copied, pages),
        forall|addr: u64| #[trigger]
            named_words(tables, load_base, vm)(addr) ==> pages.contains(
                relocation::page_of::<S>(addr),
            ),
    ensures
        elf_loading::dynamic_run(
            Virtual { vm, copied },
            DynamicView::Entries(entries),
            load_base,
            e_machine,
        ) is Done,
{
    let start = Virtual { vm, copied };
    lemma_tags(entries);
    lemma_table_places(tables, entries, load_base, vm);
    lemma_relative_number(e_machine);
    let count = tables.rela_count;
    let run = elf_loading::dynamic_rela_run(start, entries, load_base, e_machine);
    if !no_tag(entries, DT_RELA) {
        let expected = relocation::relative_type(e_machine).unwrap();
        assert(rela_pages_in(vm, tables.rela_at, 0, count, load_base, pages)) by {
            assert forall|i: int| 0 <= i < count implies pages.contains(
                relocation::page_of::<S>(
                    #[trigger] properties::rela_target(vm, tables.rela_at, i, load_base),
                ),
            ) by {
                let target = properties::rela_target(vm, tables.rela_at, i, load_base);
                assert(named_words(tables, load_base, vm)(target));
            }
        }
        lemma_rela_applies(
            vm,
            copied,
            tables.rela_at,
            0,
            count,
            load_base,
            e_machine,
            expected,
            pages,
        );
        lemma_rela_words(vm, copied, tables.rela_at, 0, count, load_base, expected);
    }
    assert(run is Done);
    let Virtual { vm: mid, copied: mid_copied } = run->Done_0;
    if !no_tag(entries, DT_RELR) {
        let words = properties::relr_words(
            mid,
            0,
            tables.relr_at,
            0,
            tables.relr.len() as int,
            load_base,
        );
        lemma_relr_list(mid, load_base, tables, vm);
        assert forall|j: int| 0 <= j < tables.relr.len() implies relocation::fetch(
            mid,
            #[trigger] properties::relr_entry(tables.relr_at, j),
        ) is Word by {
            assert(relocation::fetch(vm, properties::relr_entry(tables.relr_at, j)) == Fetch::Word(
                tables.relr[j],
            ));
            lemma_relr_entry_kept(mid, load_base, tables, vm, j);
        }
        properties::lemma_relr_relocates(
            mid,
            mid_copied,
            0,
            tables.relr_at,
            0,
            tables.relr.len() as int,
            load_base,
        );
        assert forall|p: int| 0 <= p < words.len() implies relocation::fetch(
            mid,
            #[trigger] words[p],
        ) is Word && pages.contains(relocation::page_of::<S>(words[p])) by {
            assert(relr_has(tables, load_base, words[p]));
            assert(named_words(tables, load_base, vm)(words[p]));
            lemma_readable_in_both(vm, mid, words[p]);
        }
        lemma_words_apply(mid, mid_copied, words, load_base, pages);
    }
}

} // verus!
