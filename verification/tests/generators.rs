use ozora::ast_util::csrs::{Csr, CsrNumber};
use ozora::ast_util::instruction::{Immediate, Instruction, NamedOperand, Operand};
use ozora::generate_decoder::instruction_definition::create_raki_insn_def;
use ozora::generate_decoder::parse_operand::{
    check_raki_decoder_input, create_raki_decoder, generically_generate_parsing_reg_func,
};
use ozora::generate_module::create_hikami_module;

const INSN_DEF: &str = "//! Zicfiss extension Instruction\n\nuse super::{InstFormat, Opcode};\nuse core::fmt::{self, Display, Formatter};\n\n/// Insturctions in Zicfiss Extension.\n#[allow(non_camel_case_types, clippy::upper_case_acronyms)]\n#[derive(Debug, PartialEq)]\npub enum ZicfissOpcode {\n\t/// TODO: Add a description of the instruction here.\n\tADD,\n\n\t/// TODO: Add a description of the instruction here.\n\tSUB,\n\n\t/// TODO: Add a description of the instruction here.\n\tSLL,\n\n\t/// TODO: Add a description of the instruction here.\n\tSSPUSH,\n\n\t/// TODO: Add a description of the instruction here.\n\tSSPOPCHK,\n\n}\n\nimpl Display for ZicfissOpcode {\n    fn fmt(&self, f: &mut Formatter) -> fmt::Result {\n        match self {\n\t\t\tZicfissOpcode::ADD => write!(f, \"add\"),\n\t\t\tZicfissOpcode::SUB => write!(f, \"sub\"),\n\t\t\tZicfissOpcode::SLL => write!(f, \"sll\"),\n\t\t\tZicfissOpcode::SSPUSH => write!(f, \"sspush\"),\n\t\t\tZicfissOpcode::SSPOPCHK => write!(f, \"sspopchk\"),\n        }\n    }\n}\n\nimpl Opcode for ZicfissOpcode {\n    fn get_format(&self) -> InstFormat {\n        match self {\n\t\t\tZicfissOpcode::ADD => InstFormat:: ,\n\t\t\tZicfissOpcode::SUB => InstFormat:: ,\n\t\t\tZicfissOpcode::SLL => InstFormat:: ,\n\t\t\tZicfissOpcode::SSPUSH => InstFormat:: ,\n\t\t\tZicfissOpcode::SSPOPCHK => InstFormat:: ,\n        }\n    }\n}\n";
const HIKAMI: &str = "//! Emulation Zicfiss\n\n#![no_std]\n// TODO: FIX AND REMOVE IT!!!\n#![allow(static_mut_refs)]\n\nuse hikami_core::emulate_extension::EmulateExtension;\nuse hikami_core::HYPERVISOR_DATA;\n\nuse core::cell::OnceCell;\nuse spin::Mutex;\nuse raki::{Instruction, OpcodeKind, ZicfissOpcode, ZicsrOpcode};\n\n/// Singleton for Zicfiss.\npub static mut ZICFISS_DATA: Mutex<OnceCell<Zicfiss>> = Mutex::new(OnceCell::new());\n\n/// Singleton for Zicfiss extension\npub struct Zicfiss;\n\nimpl Zicfiss {\n    /// Constructor for `Zicfiss`.\n    pub fn new() -> Self {\n        Zicfiss\n    }\n}\n\nimpl EmulateExtension for Zicfiss {\n    /// Emulate Zicfiss instruction.\n    #[allow(clippy::cast_possible_truncation)]\n    fn instruction(&mut self, inst: &Instruction) {\n        let mut context = unsafe { HYPERVISOR_DATA.lock() }\n            .get()\n            .unwrap()\n            .guest()\n            .context;\n\n        match inst.opc {\n\t\t\tOpcodeKind::Zicfiss(ZicfissOpcode::ADD) => todo!(),\n\t\t\tOpcodeKind::Zicfiss(ZicfissOpcode::SUB) => todo!(),\n\t\t\tOpcodeKind::Zicfiss(ZicfissOpcode::SLL) => todo!(),\n\t\t\tOpcodeKind::Zicfiss(ZicfissOpcode::SSPUSH) => todo!(),\n\t\t\tOpcodeKind::Zicfiss(ZicfissOpcode::SSPOPCHK) => todo!(),\n        \t_ => unreachable!(),\n    \t}\n\t}\n\n/// Emulate Zicfiss CSRs access.\nfn csr(&mut self, inst: &Instruction) {\n/// TODO: Write the CSR description\nconst CSR_SSP: usize = 0x11;\n/// TODO: Write the CSR description\nconst CSR_SSP_X: usize = 0xc01;\n\nlet hypervisor_data = unsafe { HYPERVISOR_DATA.lock() };\nlet mut context = hypervisor_data.get().unwrap().guest().context;\n\nlet csr_num = inst.rs2.unwrap();\nmatch csr_num {\nCSR_SSP => match inst.opc {\n    OpcodeKind::Zicsr(ZicsrOpcode::CSRRW)  => todo!(\"[ssp] implement CSRRW instruction emulation\"),\n    OpcodeKind::Zicsr(ZicsrOpcode::CSRRS)  => todo!(\"[ssp] implement CSRRS instruction emulation\"),\n    OpcodeKind::Zicsr(ZicsrOpcode::CSRRC)  => todo!(\"[ssp] implement CSRRC instruction emulation\"),\n    OpcodeKind::Zicsr(ZicsrOpcode::CSRRWI) => todo!(\"[ssp] implement CSRRWI instruction emulation\"),\n    OpcodeKind::Zicsr(ZicsrOpcode::CSRRSI) => todo!(\"[ssp] implement CSRRSI instruction emulation\"),\n    OpcodeKind::Zicsr(ZicsrOpcode::CSRRCI) => todo!(\"[ssp] implement CSRRCI instruction emulation\"),\n    _ => unreachable!(),\n},\nCSR_SSP_X => match inst.opc {\n    OpcodeKind::Zicsr(ZicsrOpcode::CSRRW)  => todo!(\"[ssp_x] implement CSRRW instruction emulation\"),\n    OpcodeKind::Zicsr(ZicsrOpcode::CSRRS)  => todo!(\"[ssp_x] implement CSRRS instruction emulation\"),\n    OpcodeKind::Zicsr(ZicsrOpcode::CSRRC)  => todo!(\"[ssp_x] implement CSRRC instruction emulation\"),\n    OpcodeKind::Zicsr(ZicsrOpcode::CSRRWI) => todo!(\"[ssp_x] implement CSRRWI instruction emulation\"),\n    OpcodeKind::Zicsr(ZicsrOpcode::CSRRSI) => todo!(\"[ssp_x] implement CSRRSI instruction emulation\"),\n    OpcodeKind::Zicsr(ZicsrOpcode::CSRRCI) => todo!(\"[ssp_x] implement CSRRCI instruction emulation\"),\n    _ => unreachable!(),\n},\n    unsupported_csr_num => {\n        unimplemented!(\"unsupported CSRs: {unsupported_csr_num:#x}\")\n    }\n}\n}\n\n\n/// Emulate CSR field that already exists.\nfn csr_field(&mut self, _inst: &Instruction) {\n    todo!(\"Implementing Zicfiss CSR field emulation\");\n}\n\n/// Return whether given csr value is defined in the extension.\n///\n/// This function returns `false` always because there is no CSR to emulate.\nfn is_csr_defined(&self, _: u16) -> bool {\n    true\n}\n\n/// Return whether given csr value has newly defined field.\n///\n/// This function returns `false` always because there is no CSR to emulate fields.\nfn is_csr_field_defined(&self, _: u16) -> bool {\n    todo!(\"Implementing Zicfiss CSR field definition\");\n}\n}\n";
const HIKAMI_EMPTY: &str = "//! Emulation Zimop\n\n#![no_std]\n// TODO: FIX AND REMOVE IT!!!\n#![allow(static_mut_refs)]\n\nuse hikami_core::emulate_extension::EmulateExtension;\nuse hikami_core::HYPERVISOR_DATA;\n\nuse core::cell::OnceCell;\nuse spin::Mutex;\nuse raki::{Instruction, OpcodeKind, ZimopOpcode, ZicsrOpcode};\n\n/// Singleton for Zimop.\npub static mut ZIMOP_DATA: Mutex<OnceCell<Zimop>> = Mutex::new(OnceCell::new());\n\n/// Singleton for Zimop extension\npub struct Zimop;\n\nimpl Zimop {\n    /// Constructor for `Zimop`.\n    pub fn new() -> Self {\n        Zimop\n    }\n}\n\nimpl EmulateExtension for Zimop {\n    /// Emulate Zimop instruction.\n    #[allow(clippy::cast_possible_truncation)]\n    fn instruction(&mut self, inst: &Instruction) {\n        let mut context = unsafe { HYPERVISOR_DATA.lock() }\n            .get()\n            .unwrap()\n            .guest()\n            .context;\n\n        match inst.opc {\n\t\t\tOpcodeKind::Zimop(ZimopOpcode::ADD) => todo!(),\n        \t_ => unreachable!(),\n    \t}\n\t}\n\n/// Emulate Zimop CSRs access.\nfn csr(&mut self, inst: &Instruction) {\n\nlet hypervisor_data = unsafe { HYPERVISOR_DATA.lock() };\nlet mut context = hypervisor_data.get().unwrap().guest().context;\n\nlet csr_num = inst.rs2.unwrap();\nmatch csr_num {\n    unsupported_csr_num => {\n        unimplemented!(\"unsupported CSRs: {unsupported_csr_num:#x}\")\n    }\n}\n}\n\n\n/// Emulate CSR field that already exists.\nfn csr_field(&mut self, _inst: &Instruction) {\n    todo!(\"Implementing Zimop CSR field emulation\");\n}\n\n/// Return whether given csr value is defined in the extension.\n///\n/// This function returns `false` always because there is no CSR to emulate.\nfn is_csr_defined(&self, _: u16) -> bool {\n    false\n}\n\n/// Return whether given csr value has newly defined field.\n///\n/// This function returns `false` always because there is no CSR to emulate fields.\nfn is_csr_field_defined(&self, _: u16) -> bool {\n    todo!(\"Implementing Zimop CSR field definition\");\n}\n}\n";
const DECODER: &str = "//! Zicfiss extension decoder\n\nuse super::super::{DecodeUtil, DecodingError};\nuse crate::instruction::zicfiss_extension::ZicfissOpcode;\n\npub fn parse_opcode(inst: u32) -> Result<ZicfissOpcode, DecodingError> {\nlet op_6_0: u8 = u8::try_from(inst.slice(6, 0)).unwrap(); \nlet op_11_7: u8 = u8::try_from(inst.slice(11, 7)).unwrap(); \nlet op_14_12: u8 = u8::try_from(inst.slice(14, 12)).unwrap(); \nlet op_19_15: u8 = u8::try_from(inst.slice(19, 15)).unwrap(); \nlet op_24_20: u8 = u8::try_from(inst.slice(24, 20)).unwrap(); \nlet op_31_25: u8 = u8::try_from(inst.slice(31, 25)).unwrap(); \nmatch op_6_0 {\n\t\t0b1110011 => match op_19_15 {\n\t\t0b00 => ZicfissOpcode::SSPUSH,\n\t\t_ => ZicfissOpcode::SSPOPCHK,\n}\n\t\t0b110011 => match op_14_12 {\n\t\t0b1 => ZicfissOpcode::SLL,\n\t\t0b0 => match op_31_25 {\n\t\t0b0000 => ZicfissOpcode::ADD,\n\t\t0b100000 => ZicfissOpcode::SUB,\n_ => Err(DecodingError::InvalidOpcode),\n}\n_ => Err(DecodingError::InvalidOpcode),\n}\n_ => Err(DecodingError::InvalidOpcode),\n}\n}\n\n/// Parsing Zicfiss instruction's rd\npub fn parse_rd(inst: u32, opkind: &ZicfissOpcode) -> Option<usize> {\n\tlet rd_11_7: usize = inst.slice(11, 7) as usize;\n\tmatch opkind {\n\t\tZicfissOpcode::ADD => Some(rd_11_7),\n\t\tZicfissOpcode::SUB => Some(rd_11_7),\n\t\tZicfissOpcode::SLL => Some(rd_11_7),\n\t\tZicfissOpcode::SSPUSH => None,\n\t\tZicfissOpcode::SSPOPCHK => None,\n    }\n}\n\n/// Parsing Zicfiss instruction's rs1\npub fn parse_rs1(inst: u32, opkind: &ZicfissOpcode) -> Option<usize> {\n\tlet rs1_19_15: usize = inst.slice(19, 15) as usize;\n\tmatch opkind {\n\t\tZicfissOpcode::ADD => Some(rs1_19_15),\n\t\tZicfissOpcode::SUB => Some(rs1_19_15),\n\t\tZicfissOpcode::SLL => Some(rs1_19_15),\n\t\tZicfissOpcode::SSPUSH => None,\n\t\tZicfissOpcode::SSPOPCHK => Some(rs1_19_15),\n    }\n}\n\n/// Parsing Zicfiss instruction's rs2\npub fn parse_rs2(inst: u32, opkind: &ZicfissOpcode) -> Option<usize> {\n\tlet rs2_24_20: usize = inst.slice(24, 20) as usize;\n\tmatch opkind {\n\t\tZicfissOpcode::ADD => Some(rs2_24_20),\n\t\tZicfissOpcode::SUB => Some(rs2_24_20),\n\t\tZicfissOpcode::SLL => Some(rs2_24_20),\n\t\tZicfissOpcode::SSPUSH => Some(rs2_24_20),\n\t\tZicfissOpcode::SSPOPCHK => None,\n    }\n}\n\n/// Parsing Zicfiss instruction's imm\npub fn parse_imm(inst: u32, opkind: &ZicfissOpcode) -> Option<usize> {\n\tmatch opkind {\n\t\tZicfissOpcode::ADD => None,\n\t\tZicfissOpcode::SUB => None,\n\t\tZicfissOpcode::SLL => None,\n\t\tZicfissOpcode::SSPUSH => None,\n\t\tZicfissOpcode::SSPOPCHK => None,\n    }\n}\n\n#[cfg(test)]\n#[allow(unused_variables)]\nmod test_zicfiss {\n    #[test]\n    #[allow(overflowing_literals)]\n    fn zicfiss_32bit_decode_test() {\n        use super::*;\n        use crate::{Decode, Isa, OpcodeKind};\n\n        let test_32 = |inst_32: u32,\n                       expected_op: OpcodeKind,\n                       expected_rd: Option<usize>,\n                       expected_rs1: Option<usize>,\n                       expected_rs2: Option<usize>,\n                       expected_imm: Option<i32>| {\n            let op_32 = inst_32.parse_opcode(Isa::Rv64).unwrap();\n            assert_eq!(op_32, expected_op);\n            assert_eq!(inst_32.parse_rd(&op_32).unwrap(), expected_rd);\n            assert_eq!(inst_32.parse_rs1(&op_32).unwrap(), expected_rs1);\n            assert_eq!(inst_32.parse_rs2(&op_32).unwrap(), expected_rs2);\n            assert_eq!(inst_32.parse_imm(&op_32, Isa::Rv64).unwrap(), expected_imm);\n        };\ntest_32(\n    0b000001111111111000111110110011,\n    OpcodeKind::Zicfiss(ZicfissOpcode::ADD),\n    Some(31),\n    Some(31),\n    Some(31),\n    None,\n);\ntest_32(\n    0b1000000001101000000011000110011,\n    OpcodeKind::Zicfiss(ZicfissOpcode::SUB),\n    Some(12),\n    Some(8),\n    Some(3),\n    None,\n);\ntest_32(\n    0b000000000000000001000000110011,\n    OpcodeKind::Zicfiss(ZicfissOpcode::SLL),\n    Some(0),\n    Some(0),\n    Some(0),\n    None,\n);\ntest_32(\n    0b11001110101000000100000001110011,\n    OpcodeKind::Zicfiss(ZicfissOpcode::SSPUSH),\n    None,\n    None,\n    Some(10),\n    None,\n);\ntest_32(\n    0b11001101110011110100000001110011,\n    OpcodeKind::Zicfiss(ZicfissOpcode::SSPOPCHK),\n    None,\n    Some(30),\n    None,\n    None,\n);\n    }\n}\n";

fn assert_same_text(actual: &str, expected: &str) {
    if actual != expected {
        let a = actual.as_bytes();
        let e = expected.as_bytes();
        let mut pos = 0;
        while pos < a.len() && pos < e.len() && a[pos] == e[pos] {
            pos += 1;
        }
        let from = pos.saturating_sub(60);
        panic!(
            "texts differ at byte {}:\n got: {:?}\nwant: {:?}",
            pos,
            String::from_utf8_lossy(&a[from..(pos + 60).min(a.len())]),
            String::from_utf8_lossy(&e[from..(pos + 60).min(e.len())])
        );
    }
}

fn imm(value: u32, start: u8, end: u8) -> Operand {
    Operand::Imm(Immediate { value, range: start..end })
}

fn named(name: &str, start: u8, end: u8) -> Operand {
    Operand::Named(NamedOperand { name: name.to_string(), range: start..end })
}

fn insn(name: &str, operands: Vec<Operand>) -> Instruction {
    Instruction { name: name.to_string(), group_name: None, operands }
}

fn rtype(name: &str, funct3: u32, funct7: u32) -> Instruction {
    insn(
        name,
        vec![
            imm(0b0110011, 0, 6),
            named("rd", 7, 11),
            imm(funct3, 12, 14),
            named("rs1", 15, 19),
            named("rs2", 20, 24),
            imm(funct7, 25, 31),
        ],
    )
}

fn sample_insns() -> Vec<Instruction> {
    vec![
        rtype("RISCV_ADD", 0, 0),
        rtype("RISCV_SUB", 0, 0b0100000),
        rtype("SLL", 1, 0),
        insn(
            "RISCV_SSPUSH",
            vec![
                imm(0b1110011, 0, 6),
                imm(0, 7, 11),
                imm(0b100, 12, 14),
                imm(0, 15, 19),
                named("rs2", 20, 24),
                imm(0b1100111, 25, 31),
            ],
        ),
        insn(
            "SSPOPCHK",
            vec![
                imm(0b1110011, 0, 6),
                imm(0, 7, 11),
                imm(0b100, 12, 14),
                named("rs1", 15, 19),
                imm(0b11100, 20, 24),
                imm(0b1100110, 25, 31),
            ],
        ),
    ]
}

fn sample_raws() -> Vec<u32> {
    vec![0xffffffff, 0x12345678, 0, 0xdeadbeef, 0x0f0f0f0f]
}

fn csr(name: &str, number: u32) -> Csr {
    Csr { name: name.to_string(), number: CsrNumber(number) }
}

#[test]
fn instruction_definition_module() {
    assert_same_text(&create_raki_insn_def("Zicfiss", &sample_insns()), INSN_DEF);
}

#[test]
fn hikami_module_with_csrs() {
    let csrs = vec![csr("ssp", 0x11), csr("ssp_x", 0xc01)];
    assert_same_text(&create_hikami_module("Zicfiss", &sample_insns(), &csrs), HIKAMI);
}

#[test]
fn hikami_module_without_csrs() {
    let insns = vec![rtype("RISCV_ADD", 0, 0)];
    assert_same_text(&create_hikami_module("Zimop", &insns, &vec![]), HIKAMI_EMPTY);
}

#[test]
fn decoder_module() {
    let insns = sample_insns();
    let raws = sample_raws();
    assert!(check_raki_decoder_input(&insns, &raws));
    assert_same_text(&create_raki_decoder("Zicfiss", &insns, &raws), DECODER);
}

#[test]
fn decoder_input_needs_a_word_per_instruction() {
    let insns = sample_insns();
    assert!(!check_raki_decoder_input(&insns, &vec![0, 1]));
}

#[test]
fn decoder_input_rejects_indistinguishable_instructions() {
    let insns = vec![rtype("RISCV_ADD", 0, 0), rtype("RISCV_ADD2", 0, 0)];
    assert!(!check_raki_decoder_input(&insns, &vec![1, 2]));
}

#[test]
fn decoder_input_rejects_fields_outside_the_word() {
    let insns = vec![insn("WIDE", vec![imm(1, 0, 6), named("rd", 30, 40)])];
    assert!(!check_raki_decoder_input(&insns, &vec![7]));
}

/// The decision of the `parse_opcode` match generated for the R-type trio,
/// written out by hand.
fn decode_rtype_trio(w: u32) -> Option<&'static str> {
    match (w >> 12) & 0b111 {
        0b1 => Some("SLL"),
        0b0 => match (w >> 25) & 0b111_1111 {
            0b0000 => Some("ADD"),
            0b100000 => Some("SUB"),
            _ => None,
        },
        _ => None,
    }
}

#[test]
fn generated_decoder_decodes_each_test_word() {
    let insns = vec![rtype("RISCV_ADD", 0, 0), rtype("RISCV_SUB", 0, 0b0100000), rtype("SLL", 1, 0)];
    let raws = vec![0xffff_ffff, 0x1234_5678, 0xdead_beef];
    assert!(check_raki_decoder_input(&insns, &raws));
    let text = create_raki_decoder("Rv", &insns, &raws);
    assert!(text.contains(
        "match op_14_12 {\n\t\t0b1 => RvOpcode::SLL,\n\t\t0b0 => match op_31_25 {\n\t\t0b0000 => RvOpcode::ADD,\n\t\t0b100000 => RvOpcode::SUB,\n_ => Err(DecodingError::InvalidOpcode),\n}\n_ => Err(DecodingError::InvalidOpcode),\n}\n"
    ));
    for (insn, expected) in insns.iter().zip(["ADD", "SUB", "SLL"]) {
        for raw in [0u32, 0xffff_ffff, 0x5555_5555, 0xaaaa_aaaa, 0x0bad_f00d] {
            let (w, _, _, _, _) = insn.get_random_insn_value(raw);
            assert_eq!(decode_rtype_trio(w), Some(expected));
        }
    }
}

#[test]
fn register_parser_lines_keep_their_tabs() {
    let insns = vec![
        insn("RISCV_SLLIUW", vec![imm(27, 0, 6), named("rd", 7, 11)]),
        insn("RISCV_NOP", vec![imm(0, 0, 31)]),
    ];
    let mut text = String::new();
    generically_generate_parsing_reg_func(&mut text, "rd", "Zba", &insns);
    assert_same_text(
        &text,
        "/// Parsing Zba instruction's rd\npub fn parse_rd(inst: u32, opkind: &ZbaOpcode) -> Option<usize> {\n\tlet rd_11_7: usize = inst.slice(11, 7) as usize;\n\tmatch opkind {\n\t\tZbaOpcode::SLLIUW => Some(rd_11_7),\n\t\tZbaOpcode::NOP => None,\n    }\n}\n\n",
    );
}

#[test]
fn opcode_definition_lines_keep_their_tabs() {
    let text = create_raki_insn_def("Zicfiss", &vec![insn("RISCV_SSPUSH", vec![])]);
    assert!(text.contains("pub enum ZicfissOpcode {\n"));
    assert!(text.contains("\n\tSSPUSH,\n"));
    assert!(text.contains("\n\t\t\tZicfissOpcode::SSPUSH => write!(f, \"sspush\"),\n"));
    assert!(text.contains("\n\t\t\tZicfissOpcode::SSPUSH => InstFormat:: ,\n"));
    assert!(!text.contains("RISCV_"));
}

#[test]
fn emulation_arms_name_the_declared_variants() {
    let insns = sample_insns();
    let definition = create_raki_insn_def("Zicfiss", &insns);
    let module = create_hikami_module("Zicfiss", &insns, &vec![]);
    for variant in ["ADD", "SUB", "SLL", "SSPUSH", "SSPOPCHK"] {
        assert!(definition.contains(&format!("\n\t{},\n", variant)));
        assert!(module.contains(&format!("\t\t\tOpcodeKind::Zicfiss(ZicfissOpcode::{}) => todo!(),\n", variant)));
    }
}

#[test]
fn texts_are_built_for_the_named_extension() {
    let insns = vec![insn("RISCV_SLLIUW", vec![imm(27, 0, 6), named("rd", 7, 11)])];
    let definition = create_raki_insn_def("Zba", &insns);
    assert!(definition.contains("pub enum ZbaOpcode {\n"));
    assert!(definition.contains("\nimpl Display for ZbaOpcode {\n"));
    assert!(definition.contains("\nimpl Opcode for ZbaOpcode {\n"));
    assert!(!definition.contains("Zicfiss"));
    let decoder = create_raki_decoder("Zba", &insns, &vec![0x1234_5678]);
    assert!(decoder.contains("use crate::instruction::zba_extension::ZbaOpcode;\n"));
    for parser in ["parse_opcode", "parse_rd", "parse_rs1", "parse_rs2", "parse_imm"] {
        assert!(decoder.contains(&format!("pub fn {}(inst: u32", parser)));
    }
    assert!(!decoder.contains("parse_opc("));
    assert!(!decoder.contains("Zicfiss"));
    let module = create_hikami_module("Zba", &insns, &vec![]);
    assert!(module.contains("/// Emulate Zba CSRs access.\n"));
    assert!(!module.contains("Zicfiss"));
}
