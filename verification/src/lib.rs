//! Extraction of RISC-V instruction encodings and CSR definitions from a
//! Sail specification, and generation of the decoder and hypervisor
//! emulation modules that are built from them.

pub mod sail_ast;
pub mod search;
pub mod text;
pub mod ast_util;
pub mod generate_decoder;
pub mod generate_module;
pub mod jib_util;
