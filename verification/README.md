# rcore_os

The memory management and system call logic of a small RISC-V (Sv39) teaching
kernel, written in Verus and proved against its contracts.

## Layout

- `src/mm/` — physical memory as bytes (`phys_mem`), the frame allocator
  (`frame_allocator`, `machine`), page table entries and their flags (`pte`),
  three-level page tables held in physical memory (`page_table`) with their
  meaning as a map from page numbers to leaf entries (`pt_spec`), and access
  to user memory through a page table (`user_mem`).
- `src/syscall/` — what each system call decides and records: `process`
  (`sys_mmap`, `sys_munmap`, `sys_sbrk`, ...) and `sync` (mutexes, semaphores,
  condition variables, with deadlock detection).
- `src/deadlock.rs` — the safety test that deadlock detection runs: is there an
  order in which every thread can finish?
- `app/` — the kernel side that Verus does not see: scheduling, timers, the
  blocking synchronisation objects, and the `bitflags` form of the entry flags.
- `tests/` — tests of the library on concrete values.

The main properties proved: mapping and unmapping change the table's mappings
by exactly one entry and leave every frame in use that is not a directory
untouched; `sys_mmap` maps each page to a distinct frame of its own, which
the table then owns, and `sys_munmap` undoes it; what `copy_to_user` writes,
`read_user` reads back, and `sys_get_time` writes the time through it; a
released table gives back every frame it took; each mutex in use keeps one
unit, available or held; the deadlock test answers whether some order lets
every thread finish.
