//! What errors say: which error relocating a kernel reports, and how an error reads.

use crate::elf_file::{
    DynamicEntry, DynamicView, DT_RELA, DT_RELAENT, DT_RELASZ, DT_RELR, DT_RELRENT, DT_RELRSZ,
};
use crate::elf_loading;
use crate::error;
use crate::error::LoadError;
use crate::laws;
use crate::paging;
use crate::paging::Cell;
use crate::physical::Run;
use crate::relocation;
use crate::relocation::{Fetch, Virtual, Words};
use crate::relocation_laws;
use crate::traits::PageSize;
use vstd::prelude::*;

verus! {

/// A run ends at once with an error that is reported as an invalid file, and changes nothing.
pub open spec fn invalid<W>(run: Run<W>, memory: W, text: &'static str) -> bool {
    run == (Run::Stopped { error: LoadError::InvalidElf(text), memory })
}

/// What comes of one RELA entry. The 24 bytes at `at` are the offset, the kind and the addend,
/// eight bytes each. An entry that cannot be read, one that names a symbol (in the upper half of
/// its kind) and one of another kind than the machine's relative one each have their own error.
/// Otherwise the word at the moved offset becomes the moved addend.
pub proof fn lemma_rela_entry_result<W: Words>(
    memory: W,
    at: u64,
    load_base: i64,
    e_machine: u16,
    expected: u32,
)
    requires
        relocation::relative_type(e_machine) == Some(expected),
        at <= 0xFFFF_FFFF_FFFF_FFE8,
    ensures
        ({
            let step = relocation::rela_step(memory, at, load_base, expected);
            let offset = memory.word(at);
            let kind = memory.word((at + 8) as u64);
            let addend = memory.word((at + 16) as u64);
            &&& offset is Unmapped ==> invalid(step, memory, "address not mapped")
            &&& offset is Word && kind is Unmapped ==> invalid(step, memory, "address not mapped")
            &&& offset is Word && kind is Word && addend is Unmapped ==> invalid(
                step,
                memory,
                "address not mapped",
            )
            &&& offset is Word && kind is Word && addend is Word ==> {
                if kind->Word_0 >= 0x1_0000_0000 {
                    invalid(step, memory, "relocations using the symbol table are not supported")
                } else if relocation_laws::relative_number(e_machine) != Some(kind->Word_0) {
                    step == (Run::Stopped {
                        error: LoadError::UnsupportedRelocation(kind->Word_0 as u32),
                        memory,
                    })
                } else {
                    step == memory.with_word(
                        laws::moved(offset->Word_0, load_base) as u64,
                        laws::moved(addend->Word_0, load_base) as u64,
                    )
                }
            }
        }),
{
}

/// A RELA table is not touched for a machine without a relative kind of relocation, nor where
/// its entries are not 24 bytes long. A RELR table is not touched where its entries are not eight
/// bytes long.
pub proof fn lemma_table_errors<W: Words>(
    memory: W,
    offset: u64,
    size: u64,
    ent: u64,
    load_base: i64,
    e_machine: u16,
)
    ensures
        ({
            let run = relocation::rela_table_run(memory, offset, size, ent, load_base, e_machine);
            if relocation_laws::relative_number(e_machine) is None {
                run == (Run::Stopped { error: LoadError::UnsupportedMachine(e_machine), memory })
            } else {
                ent != 24 ==> invalid(run, memory, "unexpected RELA entry size (expected 24)")
            }
        }),
        ent != 8 ==> invalid(
            relocation::relr_table_run(memory, offset, size, ent, load_base),
            memory,
            "unexpected RELR entry size (expected 8)",
        ),
{
}

/// A dynamic table that cannot be read is reported, and one that is not there is fine. A
/// description of a relocation table that lacks a part is reported with the part that is missing.
pub proof fn lemma_tag_errors<W: Words>(
    memory: W,
    entries: Seq<DynamicEntry>,
    load_base: i64,
    e_machine: u16,
)
    ensures
        invalid(
            elf_loading::dynamic_run(memory, DynamicView::Unreadable, load_base, e_machine),
            memory,
            "failed to parse dynamic section",
        ),
        elf_loading::dynamic_run(memory, DynamicView::Absent, load_base, e_machine) == Run::Done(
            memory,
        ),
        ({
            let run = elf_loading::dynamic_run(
                memory,
                DynamicView::Entries(entries),
                load_base,
                e_machine,
            );
            let no_rela = relocation_laws::no_tag(entries, DT_RELA);
            let no_size = relocation_laws::no_tag(entries, DT_RELASZ);
            let no_ent = relocation_laws::no_tag(entries, DT_RELAENT);
            &&& no_rela && !(no_size && no_ent) ==> invalid(
                run,
                memory,
                "DT_RELASZ or DT_RELAENT without DT_RELA",
            )
            &&& !no_rela && no_size ==> invalid(run, memory, "DT_RELA without DT_RELASZ")
            &&& !no_rela && !no_size && no_ent ==> invalid(
                run,
                memory,
                "DT_RELA without DT_RELAENT",
            )
            &&& no_rela && no_size && no_ent && !relocation_laws::no_tag(entries, DT_RELR) ==> {
                if relocation_laws::no_tag(entries, DT_RELRSZ) {
                    invalid(run, memory, "DT_RELR without DT_RELRSZ")
                } else {
                    relocation_laws::no_tag(entries, DT_RELRENT) ==> invalid(
                        run,
                        memory,
                        "DT_RELR without DT_RELRENT",
                    )
                }
            }
            &&& no_rela && no_size && no_ent && relocation_laws::no_tag(entries, DT_RELR) ==> run
                == Run::Done(memory)
        }),
{
    relocation_laws::lemma_tag_value(entries, DT_RELA);
    relocation_laws::lemma_tag_value(entries, DT_RELASZ);
    relocation_laws::lemma_tag_value(entries, DT_RELAENT);
    relocation_laws::lemma_tag_value(entries, DT_RELR);
    relocation_laws::lemma_tag_value(entries, DT_RELRSZ);
    relocation_laws::lemma_tag_value(entries, DT_RELRENT);
}

/// A word that is to be relocated must be mapped, and 1024 pages can be copied for relocations:
/// what is beyond that is an error.
pub proof fn lemma_write_errors<S: PageSize>(
    vm: Map<int, Cell<S>>,
    copied: Seq<u64>,
    addr: u64,
    value: u64,
)
    requires
        paging::base::<S>() > 0,
    ensures
        ({
            let page = addr - addr as int % paging::base::<S>();
            let memory = Virtual { vm, copied };
            let run = memory.with_word(addr, value);
            if !vm.contains_key(page) {
                invalid(run, memory, "page not mapped during relocation")
            } else {
                &&& !copied.contains(page as u64) && copied.len() >= 1024 <==> {
                    run is Stopped
                }
                &&& run is Stopped ==> run->error is TooManyCopiedPages
            }
        }),
{
    vstd::arithmetic::div_mod::lemma_fundamental_div_mod(addr as int, paging::base::<S>());
    vstd::arithmetic::div_mod::lemma_mod_bound(addr as int, paging::base::<S>());
    vstd::arithmetic::div_mod::lemma_mod_decreases(addr as nat, paging::base::<S>() as nat);
}

/// The number for which a digit stands.
pub open spec fn digit_value(digit: char) -> int {
    if '0' <= digit <= '9' {
        digit as int - '0' as int
    } else {
        digit as int - 'a' as int + 10
    }
}

/// The number that a text reads as, with the most significant digit first.
pub open spec fn read_number(text: Seq<char>, base: int) -> int
    decreases text.len(),
{
    if text.len() == 0 {
        0
    } else {
        read_number(text.drop_last(), base) * base + digit_value(text.last())
    }
}

/// One digit.
proof fn lemma_digit(digit: u64)
    requires
        digit < 16,
    ensures
        error::digit_text(digit).len() == 1,
        digit_value(error::digit_text(digit)[0]) == digit,
{
    reveal_strlit("0");
    reveal_strlit("1");
    reveal_strlit("2");
    reveal_strlit("3");
    reveal_strlit("4");
    reveal_strlit("5");
    reveal_strlit("6");
    reveal_strlit("7");
    reveal_strlit("8");
    reveal_strlit("9");
    reveal_strlit("a");
    reveal_strlit("b");
    reveal_strlit("c");
    reveal_strlit("d");
    reveal_strlit("e");
    reveal_strlit("f");
}

/// The text of a number reads as the number, and has no zeros in front.
pub proof fn lemma_number_text(value: u64, base: u64)
    requires
        2 <= base <= 16,
    ensures
        read_number(error::number_text(value, base), base as int) == value,
        error::number_text(value, base).len() >= 1,
        value > 0 ==> digit_value(error::number_text(value, base)[0]) != 0,
        value == 0 ==> error::number_text(value, base).len() == 1,
    decreases value,
{
    let text = error::number_text(value, base);
    if value < base {
        lemma_digit(value);
        assert(text.drop_last() =~= Seq::empty());
        assert(read_number(Seq::empty(), base as int) == 0);
        assert(0 * base == 0) by (nonlinear_arith);
    } else {
        vstd::arithmetic::div_mod::lemma_div_decreases(value as int, base as int);
        vstd::arithmetic::div_mod::lemma_fundamental_div_mod(value as int, base as int);
        vstd::arithmetic::div_mod::lemma_mod_bound(value as int, base as int);
        vstd::arithmetic::div_mod::lemma_div_non_zero(value as int, base as int);
        let rest = value / base;
        lemma_number_text(rest, base);
        lemma_digit(value % base);
        assert(text.drop_last() =~= error::number_text(rest, base));
        assert(text.last() == error::digit_text(value % base)[0]);
        assert(rest * base == base * rest) by (nonlinear_arith);
        assert(read_number(text, base as int) == rest * base + value % base);
    }
}

/// A text that begins with `begin` and goes on with a number.
pub open spec fn reads(text: Seq<char>, begin: Seq<char>, value: int, base: int) -> bool {
    &&& text.len() > begin.len()
    &&& text.take(begin.len() as int) == begin
    &&& read_number(text.skip(begin.len() as int), base) == value
}

/// The text of an error names what was wrong: a type or a machine as a decimal number, a kind of
/// relocation as a hexadecimal one, and a detail in its own words.
pub proof fn lemma_error_text(e: LoadError)
    ensures
        match e {
            LoadError::UnsupportedElfType(ty) => reads(
                error::load_error_text(e),
                "unsupported ELF type: "@,
                ty as int,
                10,
            ),
            LoadError::UnsupportedMachine(machine) => reads(
                error::load_error_text(e),
                "unsupported ELF machine type: "@,
                machine as int,
                10,
            ),
            LoadError::UnsupportedRelocation(kind) => reads(
                error::load_error_text(e),
                "unsupported relocation type: 0x"@,
                kind as int,
                16,
            ),
            LoadError::InvalidElf(detail) => error::load_error_text(e) == "invalid ELF: "@
                + detail@,
            LoadError::MappingFailed(reason) => error::load_error_text(e)
                == "page table mapping failed: "@ + error::map_error_text(reason),
            _ => true,
        },
{
    let text = error::load_error_text(e);
    match e {
        LoadError::UnsupportedElfType(ty) => {
            let begin = "unsupported ELF type: "@;
            lemma_number_text(ty as u64, 10);
            assert(text.take(begin.len() as int) =~= begin);
            assert(text.skip(begin.len() as int) =~= error::number_text(ty as u64, 10));
        },
        LoadError::UnsupportedMachine(machine) => {
            let begin = "unsupported ELF machine type: "@;
            lemma_number_text(machine as u64, 10);
            assert(text.take(begin.len() as int) =~= begin);
            assert(text.skip(begin.len() as int) =~= error::number_text(machine as u64, 10));
        },
        LoadError::UnsupportedRelocation(kind) => {
            let begin = "unsupported relocation type: 0x"@;
            lemma_number_text(kind as u64, 16);
            assert(text.take(begin.len() as int) =~= begin);
            assert(text.skip(begin.len() as int) =~= error::number_text(kind as u64, 16));
        },
        _ => {},
    }
}

} // verus!
