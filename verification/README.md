# ozora

Tools for automatic generation of hypervisor modules and decoder automation:
from a Sail model of the RISC-V ISA, the instruction encodings and CSR names of
one extension are extracted, and three Rust modules are generated from them:
the opcode definition, the decoder (with its unit tests) and the hypervisor
emulation module.

## Layout

- `src/` is the library, verified with Verus.
  - `sail_ast.rs`: the part of a Sail syntax tree that the extraction reads.
  - `ast_util.rs`, `ast_util/instruction.rs`, `ast_util/csrs.rs`: queries on
    the tree, and the extraction of instruction encodings and CSRs.
  - `jib_util.rs`: queries on the Jib form of a model.
  - `generate_decoder/`: the opcode definition and decoder modules, and
    `decoding.rs`, the reading of the generated `parse_opcode` match.
  - `generate_module.rs`: the hypervisor emulation module.
  - `text.rs`, `search.rs`: formatting of numbers and text, first matches.
- `app/` is the command line program: it parses the Sail files, converts the
  tree into the library's model, and writes the generated modules.
- `tests/` holds the tests of the library.

## Usage

```
ozora --ext-name Zicfiss riscv_zicfiss.sail target/zicfiss.rs
```
