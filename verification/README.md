# kernel_loader_tables

Page tables for a kernel loader, verified with Verus: the loader's identity
map and the kernel's initial map are described as regions of virtual address
space, turned into a table tree, and serialised into the bytes the loader
image carries.

- `src/scheme.rs` — the four translation schemes (AArch64, AArch32 short
  descriptors, RISC-V Sv39 and Sv32): geometry and branch descriptors.
- `src/descriptors.rs` — leaf descriptors built field by field.
- `src/leaves.rs` — the leaves of the two maps, with the T-Head MAEE marking.
- `src/regions.rs` — regions, the table they build, and the proof that the
  table translates every address as the regions say.
- `src/table.rs` — the table tree and its walk.
- `src/embed.rs` — serialisation: layout, alignment, descriptor bytes.
- `src/maps.rs` — the loader map and the kernel map.
- `src/uart16550.rs` — the decisions of a polled 16550 console.
- `app/` — the platform consoles' register accesses and the checked entry points.
