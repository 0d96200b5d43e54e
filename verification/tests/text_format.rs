use ozora::ast_util::instruction::Instruction;
use ozora::generate_decoder::instruction_definition::{opcode_mnemonic_of, opcode_variant_of};
use ozora::text::{
    fmt_binary_alt, fmt_bool, fmt_decimal, fmt_hex_alt, fmt_option_debug, same_text, strip_riscv_prefix,
};

#[test]
fn binary_matches_std_formatting() {
    for &(n, w) in &[(0u64, 0usize), (0, 6), (5, 6), (0b101, 2), (0b0110011, 6), (u32::MAX as u64, 32), (1, 34), (0x1b, 32)] {
        assert_eq!(fmt_binary_alt(n, w), format!("{:#0w$b}", n, w = w), "{} {}", n, w);
    }
}

#[test]
fn hex_and_decimal_match_std_formatting() {
    for &n in &[0u64, 1, 0x11, 0xc00, 0xdead_beef, u64::MAX] {
        assert_eq!(fmt_hex_alt(n), format!("{:#x}", n));
        assert_eq!(fmt_decimal(n), format!("{}", n));
    }
}

#[test]
fn option_debug_matches_std_formatting() {
    for &x in &[None, Some(0i64), Some(31), Some(-5), Some(i64::MIN), Some(i64::MAX)] {
        assert_eq!(fmt_option_debug(x), format!("{:?}", x));
    }
    assert_eq!(fmt_bool(true), "true");
    assert_eq!(fmt_bool(false), "false");
}

#[test]
fn riscv_prefix_is_stripped_once() {
    for s in ["RISCV_SLLIUW", "RISCV_", "RISCV", "SSPUSH", "", "RISCV_RISCV_X", "riscv_x", "RISCVX_"] {
        assert_eq!(strip_riscv_prefix(s), s.strip_prefix("RISCV_").unwrap_or(s));
    }
}

#[test]
fn case_and_comparison() {
    let named = |name: &str| Instruction { name: name.to_string(), group_name: None, operands: vec![] };
    assert_eq!(opcode_variant_of(&named("RISCV_sspush_x1")), "SSPUSH_X1");
    assert_eq!(opcode_mnemonic_of(&named("RISCV_SSPUSH_X1")), "sspush_x1");
    assert_eq!(opcode_variant_of(&named("c.Add")), "C.ADD");
    assert_eq!(opcode_mnemonic_of(&named("C.Add")), "c.add");
    assert!(same_text("abc", "abc"));
    assert!(!same_text("abc", "abd"));
    assert!(!same_text("abc", "ab"));
}
