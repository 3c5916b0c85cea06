# crusty_os

The verified core of a small x86_64 kernel: its allocators, its interrupt handling, what it
makes of the information that a boot loader hands over, and the tools around it. The library
in `src/` is written in Verus; every function states what it does in `requires` and `ensures`
and is proved against that.

## Layout

| Where | What |
|-------|------|
| `src/memory.rs`, `src/links.rs`, `src/bitmap.rs`, `src/align.rs` | A range of memory as bytes, doubly linked lists inside it, pair bitmaps, alignment |
| `src/buddy*` | Page allocator with power-of-two blocks |
| `src/tlsf*` | Two-level segregated fit heap on pages of the buddy allocator |
| `src/slab*` | Caches of equal objects on pages of the buddy allocator |
| `src/framework.rs`, `src/runner.rs`, `src/platform.rs` | Memory regions, statistics, the test runner and how it reports to the emulator |
| `src/boot*` | From the memory maps of the boot protocols to a running heap |
| `src/interrupts*`, `src/gdt.rs`, `src/startup.rs` | Vectors, handlers, interrupt controllers, stacks, the order of initialisation |
| `src/profiler.rs`, `src/workloads.rs` | Heap statistics and workloads of the hosted programs |
| `src/xtask.rs`, `src/linking.rs` | What the build commands do |
| `tests/` | Tests of the library |
| `app/` | What touches the machine: ports, registers, locks, threads, processes |

The `laws.rs` files hold what is true of each allocator as a whole: blocks that are handed out
never overlap, what is stored in them stays, bytes are neither lost nor counted twice, and what
was handed out can be given back.

## Memory

An allocator works on a `Memory`, a range of bytes at an address. Free blocks are linked
through words inside them, so the invariants `wf` speak of the allocator and of the bytes that
it keeps its links in. Every operation says which bytes it may change.
