# rust malloc, verified

A first-fit `malloc`/`free` over a linked list of boxes that grows with the
program break, as a Verus library.

- `src/types.rs`: boxes, headers and data addresses, and `Heap`, the memory
  of the headers (and of the bytes stored in data areas).
- `src/list.rs`: the box list as a sequence, what a valid list is, and how
  splitting, merging, marking and appending change it.
- `src/malloc.rs`: the allocator: first-fit `boxy_malloc`/`malloc`/`calloc`,
  `free`, `realloc`, the bookkeeping of the program break, counts.
- `src/diag.rs`: diagnostics: counts and the text the printers write.
- `src/mmap.rs`: the arithmetic of the allocator that maps every allocation.
- `src/util.rs`: power-of-two rounding, decimal digits, benchmark sizes.
- `app/`: the programs: system calls, printing, benchmarks.

The kernel's work stays in `app/`: when no box of the list can take a
request, the library answers `Step::Grow` with the number of bytes to ask
for, and the program comes back with the kernel's reply. The new box goes
at the old break, so every box lies below the program break.
