# one_collect

The verified core of a Linux performance-event collector, written in Verus.

- `src/abi.rs`: the perf event ABI: attribute blocks, record headers and
  their byte layout, sample-id trailers.
- `src/builder.rs`: attribute blocks for each kind of ring buffer, and the
  per-CPU buffers made from them.
- `src/ringbuf.rs`: the ring buffer protocol: a reader over mapped pages and
  an in-process ring buffer with its writer. A record that the writer
  accepts is what the reader reads back.
- `src/mappings.rs`, `src/mapping_order.rs`: module mappings, the
  virtual addresses of file ranges, symbol matching, and the lookup of the
  mapping that holds an address at a time.
- `src/symbols.rs`, `src/symtext.rs`, `src/intern.rs`: symbols, the readers
  of kernel symbol lists, perf maps, R2R maps and ELF symbol tables, and
  string interning.
- `src/dwarf.rs`: DWARF call-frame information (`.eh_frame`,
  `.eh_frame_hdr`) for stack unwinding.
- `src/export.rs`: where exports are written, and which file each
  process group's samples go to.

`app/` holds the system side: the perf system calls, mapping of ring buffer
pages, reading of files, and the file-system checks of export paths. Run
Verus on `src/lib.rs` to check the library; `tests/` holds its tests.
