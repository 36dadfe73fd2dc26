# wasabi

Support library of a small x86-64 kernel, written in Verus.

- `allocator`: a first-fit memory allocator over the conventional memory of
  the UEFI memory map. Blocks are kept in a list; a request is served from the
  end of the first free block that can hold it, splitting the block. The
  contracts state the exact block list after each operation, and proof
  functions state that the blocks stay disjoint and on 32-byte boundaries,
  that handed-out memory overlaps no allocated block (so two successive
  allocations never overlap), and that releasing it frees exactly its block.
  The list is a field of `FirstFitAllocator` whose well-formedness is a type
  invariant. The calls are also modelled as steps on the block list
  (`apply_step`, `run_steps`): a map of non-overlapping regions gives
  non-overlapping blocks, any sequence of calls keeps them so, an allocated
  block lives on until its memory is released, and so memory handed out
  stays apart from everything handed out after it until it is released.
- `uefi`: the memory-map records the allocator reads.
- `graphics`: drawing points, rectangles, lines and text on any `Bitmap`,
  and `FrameBuffer`, a bitmap held in memory. Proof functions state that a
  line's interpolation advances by at most one pixel per step and that
  drawing a joined text equals drawing its parts one after the other.
- `font`: parsing the text description of a bitmap font.
- `print`: the text of hex dumps and of numbers.
- `x86`: page-table entries and tables.

`app/` holds what touches the hardware: CPU instructions, I/O ports, the
serial console, the `GlobalAlloc` interface over the allocator, loading a
font from its text, and the glue from the firmware's memory map and raw
pointers to the library.
