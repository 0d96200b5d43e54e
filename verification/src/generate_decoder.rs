//! Generation of the decoder modules.

pub mod decoding;
pub mod instruction_definition;
pub mod parse_operand;
