use ozora::ast_util::instruction::{Immediate, Instruction, NamedOperand, Operand};
use ozora::generate_decoder::parse_operand::group_by_opc_value;

fn imm(value: u32, start: u8, end: u8) -> Operand {
    Operand::Imm(Immediate { value, range: start..end })
}

fn named(name: &str, start: u8, end: u8) -> Operand {
    Operand::Named(NamedOperand { name: name.to_string(), range: start..end })
}

fn insn(name: &str, operands: Vec<Operand>) -> Instruction {
    Instruction { name: name.to_string(), group_name: None, operands }
}

fn rtype(name: &str, funct3: u32, funct7: u32) -> Instruction {
    insn(
        name,
        vec![
            imm(0b0110011, 0, 6),
            named("rd", 7, 11),
            imm(funct3, 12, 14),
            named("rs1", 15, 19),
            named("rs2", 20, 24),
            imm(funct7, 25, 31),
        ],
    )
}

#[test]
fn field_by_name_is_the_first_named_operand() {
    let i = insn("X", vec![imm(1, 0, 6), named("rd", 7, 11), named("rd", 12, 16)]);
    assert_eq!(i.get_field_by_name("rd").map(|n| n.range.clone()), Some(7..11));
    assert!(i.get_field_by_name("rs1").is_none());
    assert!(i.get_field_by_name("").is_none());
}

#[test]
fn imm_fields_in_order() {
    let i = rtype("ADD", 0, 0);
    let imms = i.get_imm_fields();
    let ranges: Vec<_> = imms.iter().map(|x| x.range.clone()).collect();
    assert_eq!(ranges, vec![0..6, 12..14, 25..31]);
    assert!(insn("N", vec![named("rd", 0, 4)]).get_imm_fields().is_empty());
}

#[test]
fn imm_value_by_exact_range() {
    let i = rtype("SUB", 0, 0b0100000);
    assert_eq!(i.get_imm_value_by_range(&(25..31)), Some(0b0100000));
    assert_eq!(i.get_imm_value_by_range(&(0..6)), Some(0b0110011));
    assert_eq!(i.get_imm_value_by_range(&(25..30)), None);
    assert_eq!(i.get_imm_value_by_range(&(7..11)), None);
}

#[test]
fn groups_by_value_in_order_of_first_occurrence() {
    let insns = vec![
        rtype("ADD", 0, 0),
        rtype("SLL", 1, 0),
        rtype("SUB", 0, 0b0100000),
        insn("OTHER", vec![imm(0b0010011, 0, 6)]),
    ];
    let groups = group_by_opc_value(&insns, &(12..14));
    let names: Vec<Vec<&str>> = groups
        .iter()
        .map(|g| g.iter().map(|i| i.name.as_str()).collect())
        .collect();
    assert_eq!(names, vec![vec!["ADD", "SUB"], vec!["SLL"], vec!["OTHER"]]);
    let total: usize = groups.iter().map(|g| g.len()).sum();
    assert_eq!(total, insns.len());
    assert!(group_by_opc_value(&vec![], &(0..6)).is_empty());
}

#[test]
fn copy_keeps_everything() {
    let i = Instruction { group_name: Some("G".to_string()), ..rtype("ADD", 0, 0) };
    let c = i.copy();
    assert_eq!(format!("{:?}", c), format!("{:?}", i));
}

#[test]
fn random_insn_value_sets_fixed_bits_and_reads_registers() {
    let add = rtype("ADD", 0, 0);
    let (v, rd, rs1, rs2, no_imm) = add.get_random_insn_value(0xffff_ffff);
    assert_eq!(v, 0b0000000_11111_11111_000_11111_0110011);
    assert_eq!(rd, Some(31));
    assert_eq!(rs1, Some(31));
    assert_eq!(rs2, Some(31));
    assert_eq!(no_imm, None);
    let (v, rd, rs1, rs2, _) = add.get_random_insn_value(0);
    assert_eq!(v, 0b0110011);
    assert_eq!((rd, rs1, rs2), (Some(0), Some(0), Some(0)));
    let one = insn("ONE", vec![named("rd", 0, 4), imm(3, 5, 6)]);
    let (v, rd, rs1, rs2, _) = one.get_random_insn_value(0b1010_0101);
    assert_eq!(v, 0b1110_0101);
    assert_eq!((rd, rs1, rs2), (Some(5), None, None));
}

#[test]
fn test_word_carries_every_immediate() {
    let sspush = insn(
        "RISCV_SSPUSH",
        vec![
            imm(0b1110011, 0, 6),
            imm(0, 7, 11),
            imm(0b100, 12, 14),
            imm(0, 15, 19),
            named("rs2", 20, 24),
            imm(0b1100111, 25, 31),
        ],
    );
    for raw in [0u32, 0xffff_ffff, 0xdead_beef, 0x1234_5678] {
        let (v, _, _, rs2, _) = sspush.get_random_insn_value(raw);
        for f in sspush.get_imm_fields() {
            let width = (f.range.end - f.range.start + 1) as u32;
            let mask = if width >= 32 { u32::MAX } else { (1u32 << width) - 1 };
            assert_eq!((v >> f.range.start) & mask, f.value & mask);
        }
        assert_eq!(rs2, Some(((raw >> 20) & 0x1f) as usize));
    }
}

#[test]
fn imm_value_by_range_is_that_of_the_first_imm_field() {
    let i = insn(
        "X",
        vec![named("rd", 0, 4), imm(5, 5, 6), imm(7, 7, 9), imm(2, 5, 6), named("rs1", 10, 14)],
    );
    for r in [0..4, 5..6, 7..9, 10..14, 5..7, 0..31] {
        let expected = i.get_imm_fields().into_iter().find(|f| f.range == r).map(|f| f.value);
        assert_eq!(i.get_imm_value_by_range(&r), expected);
    }
    assert_eq!(i.get_imm_value_by_range(&(5..6)), Some(5));
}
