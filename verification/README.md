# tiny_os

The logic of a small x86-64 hobby kernel, written in Verus and proved
against its contracts: paths, the in-memory, process and virtual file
systems, file handles and descriptor tables, pipes, the thread table and the
round-robin scheduler, process groups, wait queues and their registry,
system-call decisions, physical frame allocation, page-region walks, ELF
segment flags, terminal text and line drawing.

Layout:

- `src/` — the verified library. Each module states its data as plain
  mathematical values (`Seq`, `Map`, integers) through a view, its
  well-formedness as a spec function, and each operation's effect in its
  `ensures`. Properties that relate several operations stand as public
  `law_*` proof functions.
- `tests/` — ordinary Rust tests run against the compiled library.
- `app/` — the kernel's outer layer that Verus does not see: global
  singletons, device dispatch, error types with their messages, drawing
  through `embedded-graphics`, the frame allocator as `x86_64` wants one,
  posting wait events, and the emulator exit port.

Outside crates called from `src/` sit behind small trusted wrappers
(`#[verifier::external_body]`) whose doc comments say what is assumed:
`indexmap` for directory entries; `hashbrown` for the device table, for the
positions of the wait queues by kind and of the threads by number, and for
hashing file paths; `nblf-queue` for the queue of posted wait events;
`x86_64` for address alignment; and a few `std` functions that `vstd` does
not specify.
