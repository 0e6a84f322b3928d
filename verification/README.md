# kernel_elf_loader

A platform-agnostic ELF kernel loader for bootloaders, verified with Verus.

The library loads a kernel ELF file into a new page table: it maps the LOAD segments, zeroes the
BSS, applies RELA and RELR relocations with copy-on-write, extracts the TLS template and protects
RELRO segments. It also maps further regions (stack with guard page, framebuffer, ramdisk,
physical memory), and keeps track of the virtual addresses that are in use, with optional ASLR.

## Layout

- `src/traits.rs`: addresses, flags, and the traits that a platform implements, with contracts.
- `src/paging.rs`, `src/state.rs`: the model. A page table and physical memory give the kernel's
  *virtual memory*, of which most contracts speak.
- `src/physical.rs`: what each step does given the answers of the platform.
- `src/address_space.rs`: which virtual addresses are used, and where the next region goes.
- `src/mapping.rs`, `src/zeroed.rs`: mapping physical regions and fresh zeroed frames.
- `src/elf_file.rs`: what loading reads of an ELF file. The parsing itself is done by the `elf`
  crate and taken on trust.
- `src/relocation.rs`, `src/elf_loading.rs`, `src/loader.rs`: loading a kernel.
- `src/properties.rs`, `src/kernel_image.rs`: what all of this adds up to.
- `src/boot_config.rs`, `src/boot.rs`, `src/boot_info.rs`: booting a kernel on x86_64.
- `src/x86_64.rs`, `src/x86_bridge.rs`: x86_64 page sizes, flags and frames.
- `app/`: the parts that touch the machine. They implement the platform traits for x86_64.

## Reading the contracts

What the loader does is described twice.

Over virtual memory it is a plain function of the memory before: what every address reads, and
with which flags. A word that runs over the end of its page is beyond that, because it goes on in
whatever frame follows physically.

Over the page table and physical memory it is a function of the state before and of the answers of
the platform (`src/physical.rs`): which frames it hands out and which requests it refuses. This
covers every word, every page and every frame. It also says where a refusal stops the loader: all
requests before the refused one were granted and carried out, the refused one is the next that was
due, and nothing came after it. Frames that are handed out never overlap, and none is asked for
without need.

Words in memory are read and written least significant byte first, as on x86_64, RISC-V and
little-endian AArch64.

A frame allocator can be wrapped to hand out frames of 2 MiB as well (`src/x86_bridge.rs`). Its
contract says which frames of 4 KiB were requested from the wrapped allocator and what each request
gave, also after the wrapper is gone.
