# lib

Building blocks of a small operating system's user space, written in Verus:
the functions in `src/` carry `requires`/`ensures` contracts that Verus
proves, except a few small wrappers marked `#[verifier::external_body]`,
each around one call into `std` (string conversion, reserving memory,
reference counts, setting a byte), whose contracts are taken on trust and
whose doc comments say what they claim.

## Layout

- `src/bytes.rs` — little-endian reads and writes on byte buffers.
- `src/error.rs` — error kinds and their numeric codes.
- `src/io.rs` — readers with a position, and exact reads.
- `src/elf.rs` — ELF64 header and program-header parsing, and the plan of
  copies and clears that loading a file carries out.
- `src/shell.rs` — the decisions of the interactive shell: line editing,
  command dispatch, number parsing.
- `src/fs/` — block devices, paths, directory entries, the MBR partition
  table and a FAT32 file system (format, mount, lookup, create, delete,
  read).
- `src/locks/` — mutex, read-write lock, semaphore, condition variable,
  one-shot and watch channels and a bounded single-producer queue, each as an
  explicit state machine driven by `poll`/`cancel` calls.
- `src/try_alloc/` — collections whose growth reports allocation failure:
  vectors, deques, strings, boxes, reference counts, an intrusive linked
  list, a red-black tree map, and an open-addressing hash map and set.
- `app/` — a host program around the shell.
- `tests/` — tests run against the compiled library.

Laws that relate several operations (insert then get, format then mount,
send then receive, first in first out, …) are public proof functions named
`lemma_*` beside the operations they speak of.
