# specter_probe

A verified library for exploring the hardware of embedded firmware, with a
small command-line front end.

- `src/lift` — decoded AArch64 functions and their rendering as LLVM-style IR
  text (`generate_ir`, `emit_function`, `emit_ir`).
- `src/mmio` — a scanner that finds loads and stores whose absolute address
  follows from constant register definitions in the same basic block
  (`scan_functions`).
- `src/behavior` — per-peripheral models built from those accesses: register
  maps, bitfields, per-function access sequences, an initialisation sequence
  and a coarse state machine (`build_device_models`).
- `src/acquisition` — the hardware description drawn from a device tree blob
  (`parse_dtb`, `dtb_info_from_tree`), parsed with the `device_tree_parser`
  crate.
- `src/text` — the string rendering the other modules share.

Every executable function in `src/` carries a contract. Verus proves all of
them except the few marked `#[verifier::external_body]`, which wrap single
calls into std and `device_tree_parser` (and copy the parser's tree into plain
values); their contracts are believed, not proved. The public proof functions
state properties that hold across calls (for example, that scanning is
compositional and that every access lands in exactly one register and one
access sequence).

`app/` reads a device tree blob from disk, writes the hardware description
as JSON to `hardware.json` in the output directory, and prints it.
