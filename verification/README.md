# tg-rcore-tutorial

The logic of a family of small RISC-V teaching kernels, written in Verus and proved
against its contracts, with a thin ordinary-Rust driver around it.

## Layout

- `src/` — the verified library:
  - `memory`, `claim` — bump allocation for the kernel heap and the VirtIO DMA pool,
    and one compare-and-swap attempt at claiming a planned block;
  - `canvas`, `tangram` — the framebuffer painter and the tangram picture, drawn
    whole or one step at a time;
  - `shapes`, `lines` — what the triangle, polygon and line painters cover;
  - `rows`, `deadlock` — per-process deadlock detection: the banker's safety check
    for semaphores, wait-for cycles for mutexes, and what `semaphore_down`,
    `mutex_lock` and `condvar_wait` record and answer;
  - `fs_index` — the hard-link index over easy-fs (`open`, `link`, `unlink`,
    `fstat`), with the open-flag decoding that easy-fs provides, and the checks of
    the descriptor table (`fstat`, `close`, `lseek`);
  - `syscall` — keyboard translation, `lseek`, framebuffer blits, clock conversion,
    user-buffer splitting, C open flags;
  - `sched` — what the trap loops do after a user program traps;
  - `elf`, `kspace` — reading an executable's little-endian headers and planning its
    mappings, and the mappings of the kernel itself;
  - `storage` — the interrupt-driven block-device check;
  - `console` — number formatting for the serial console.
- `tests/` — tests run against the compiled library.
- `app/` — a host-side driver: allocator and VirtIO glue, the easy-fs file system
  over the index, and a command line that renders the picture or plans an ELF load.
