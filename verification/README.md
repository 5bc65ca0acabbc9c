# riscv_kernel

The memory management core of a small RISC-V (Sv39) kernel, written in Verus.

`src/` is the verified library:

- `memory_layout` — addresses and page rounding.
- `physical_memory` — a window of physical memory seen as 64-bit words.
- `kalloc` — the page allocator: a LIFO free list threaded through the first word of each
  free page, with `kalloc`, `kzalloc`, `kfree` and `kalloc_init`.
- `live_pages` — runs of allocations and frees: the pages handed out and not yet given
  back never overlap.
- `mmu` — Sv39 page-table entries, the three-level table walk, `map_pages`, and
  `mmu_init`, which builds the kernel's identity mapping.
- `mapping_plan` — whether `mmu_init` can run on a given layout and allocator, computed
  exactly as its precondition states it.
- `fdt` — decoding of the flattened device-tree header and its memory reservation map.
- `registers`, `cpu`, `pagetable` — register values and plain data types.

`app/` is the kernel around it: the SBI console, control-register access through inline
assembly, the spin lock that guards the global allocator, linker symbols and the boot
sequence.

`tests/` runs the library on small memory windows.
