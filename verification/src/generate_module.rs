//! Genarate a hypervisor module.

use vstd::prelude::*;

use crate::ast_util::csrs::Csr;
use crate::ast_util::instruction::{views, Instruction, InstructionView};
use crate::generate_decoder::instruction_definition::{enum_line, opcode_variant};
use crate::text::{
    concat_all, fmt_bool, fmt_hex_alt, lemma_concat_all_full, lemma_concat_all_step, spec_bool,
    all_ascii, ascii_upper, spec_hex_alt, upper_text, strip_riscv, strip_riscv_prefix, to_uppercase,
};

verus! {

/// The emulation arm of an instruction.
pub open spec fn inst_arm(ext: Seq<char>) -> spec_fn(InstructionView) -> Seq<char> {
    |i: InstructionView| "\t\t\tOpcodeKind::"@ + ext + "("@ + ext + "Opcode::"@ + strip_riscv(i.name@) + ") => todo!(),\n"@
}

/// An ASCII name without a lower-case letter: upper-casing keeps it.
pub open spec fn upper_case_name(s: Seq<char>) -> bool {
    all_ascii(s) && forall|i: int| 0 <= i < s.len() ==> !('a' <= #[trigger] s[i] && s[i] <= 'z')
}

/// The emulation arms name the variants that the opcode enum declares: where
/// every instruction's name, without `RISCV_`, is an ASCII name without a
/// lower-case letter, the arm of each instruction names
/// `{ext}Opcode::{variant}` for the very variant that its line in the opcode
/// enum declares.
pub proof fn lemma_emulation_arms_name_declared_variants(ext: Seq<char>, insns: Seq<InstructionView>)
    requires
        forall|k: int| 0 <= k < insns.len() ==> upper_case_name(strip_riscv(#[trigger] insns[k].name@)),
    ensures
        forall|k: int|
            0 <= k < insns.len() ==> {
                &&& inst_arm(ext)(#[trigger] insns[k]) == "\t\t\tOpcodeKind::"@ + ext + "("@ + ext + "Opcode::"@
                    + opcode_variant(insns[k]) + ") => todo!(),\n"@
                &&& enum_line()(insns[k]) == "\t/// TODO: Add a description of the instruction here.\n\t"@
                    + opcode_variant(insns[k]) + ",\n\n"@
            },
{
    assert forall|k: int| 0 <= k < insns.len() implies opcode_variant(#[trigger] insns[k]) == strip_riscv(
        insns[k].name@,
    ) by {
        let n = strip_riscv(insns[k].name@);
        assert(upper_case_name(n));
        reveal(upper_text);
        assert(n.map_values(|c: char| ascii_upper(c)) =~= n);
    }
}

/// The `EmulateExtension::instruction` part of the module of the extension `ext`.
pub open spec fn spec_inst_handler(ext: Seq<char>, insns: Seq<InstructionView>) -> Seq<char> {
    "impl EmulateExtension for "@ + ext + " {\n    /// Emulate "@ + ext
        + " instruction.\n    #[allow(clippy::cast_possible_truncation)]\n    fn instruction(&mut self, inst: &Instruction) {\n        let mut context = unsafe { HYPERVISOR_DATA.lock() }\n            .get()\n            .unwrap()\n            .guest()\n            .context;\n\n        match inst.opc {\n"@
        + concat_all(insns, inst_arm(ext)) + "        \t_ => unreachable!(),\n    \t}\n\t}\n\n"@
}

/// Generate the `EmulateExtension::instruction`.
pub fn generate_inst_handler(file: &mut String, ext_name: &str, insns: &Vec<Instruction>)
    ensures
        final(file)@ == old(file)@ + spec_inst_handler(ext_name@, views(insns@)),
{
    let ghost s = views(insns@);
    let ghost ext = ext_name@;
    let ghost before = file@;
    file.append("impl EmulateExtension for ");
    file.append(ext_name);
    file.append(" {\n    /// Emulate ");
    file.append(ext_name);
    file.append(
        " instruction.\n    #[allow(clippy::cast_possible_truncation)]\n    fn instruction(&mut self, inst: &Instruction) {\n        let mut context = unsafe { HYPERVISOR_DATA.lock() }\n            .get()\n            .unwrap()\n            .guest()\n            .context;\n\n        match inst.opc {\n",
    );

    // generate instruction pattern from insns data.
    let ghost start = file@;
    proof {
        lemma_concat_all_full(s, inst_arm(ext));
    }
    let mut i: usize = 0;
    while i < insns.len()
        invariant
            i <= insns@.len(),
            s == views(insns@),
            ext == ext_name@,
            file@ == start + concat_all(s.take(i as int), inst_arm(ext)),
        decreases insns@.len() - i,
    {
        proof {
            lemma_concat_all_step(s, inst_arm(ext), i as int);
        }
        let stripped = strip_riscv_prefix(insns[i].name.as_str());
        file.append("\t\t\tOpcodeKind::");
        file.append(ext_name);
        file.append("(");
        file.append(ext_name);
        file.append("Opcode::");
        file.append(stripped.as_str());
        file.append(") => todo!(),\n");
        i = i + 1;
        assert(file@ =~= start + concat_all(s.take(i as int), inst_arm(ext)));
    }
    file.append("        \t_ => unreachable!(),\n    \t}\n\t}\n\n");
    assert(file@ =~= before + spec_inst_handler(ext_name@, views(insns@)));
}

/// The constant that names a CSR's number.
pub open spec fn csr_const() -> spec_fn(Csr) -> Seq<char> {
    |c: Csr|
        "/// TODO: Write the CSR description\nconst CSR_"@ + upper_text(c.name@) + ": usize = "@
            + spec_hex_alt(c.number.0 as nat) + ";\n"@
}

/// The emulation arm of a CSR.
pub open spec fn csr_arm() -> spec_fn(Csr) -> Seq<char> {
    |c: Csr|
        "CSR_"@ + upper_text(c.name@)
            + " => match inst.opc {\n    OpcodeKind::Zicsr(ZicsrOpcode::CSRRW)  => todo!(\"["@ + c.name@
            + "] implement CSRRW instruction emulation\"),\n    OpcodeKind::Zicsr(ZicsrOpcode::CSRRS)  => todo!(\"["@
            + c.name@
            + "] implement CSRRS instruction emulation\"),\n    OpcodeKind::Zicsr(ZicsrOpcode::CSRRC)  => todo!(\"["@
            + c.name@
            + "] implement CSRRC instruction emulation\"),\n    OpcodeKind::Zicsr(ZicsrOpcode::CSRRWI) => todo!(\"["@
            + c.name@
            + "] implement CSRRWI instruction emulation\"),\n    OpcodeKind::Zicsr(ZicsrOpcode::CSRRSI) => todo!(\"["@
            + c.name@
            + "] implement CSRRSI instruction emulation\"),\n    OpcodeKind::Zicsr(ZicsrOpcode::CSRRCI) => todo!(\"["@
            + c.name@ + "] implement CSRRCI instruction emulation\"),\n    _ => unreachable!(),\n},\n"@
}

/// The `EmulateExtension::csr` body for the CSRs `csrs`.
pub open spec fn spec_csr_handler(csrs: Seq<Csr>) -> Seq<char> {
    concat_all(csrs, csr_const())
        + "\nlet hypervisor_data = unsafe { HYPERVISOR_DATA.lock() };\nlet mut context = hypervisor_data.get().unwrap().guest().context;\n\n"@
        + "let csr_num = inst.rs2.unwrap();\nmatch csr_num {\n"@ + concat_all(csrs, csr_arm())
        + "    unsupported_csr_num => {\n        unimplemented!(\"unsupported CSRs: {unsupported_csr_num:#x}\")\n    }\n}\n"@
}

/// Generate the `EmulateExtension::csr`.
#[verifier::spinoff_prover]
#[verifier::rlimit(40)]
pub fn generate_csr_handler(file: &mut String, csrs: &Vec<Csr>)
    ensures
        final(file)@ == old(file)@ + spec_csr_handler(csrs@),
{
    let ghost s = csrs@;
    let ghost before = file@;
    let ghost start = file@;
    proof {
        lemma_concat_all_full(s, csr_const());
    }
    let mut i: usize = 0;
    while i < csrs.len()
        invariant
            i <= csrs@.len(),
            s == csrs@,
            file@ == start + concat_all(s.take(i as int), csr_const()),
        decreases csrs@.len() - i,
    {
        proof {
            lemma_concat_all_step(s, csr_const(), i as int);
        }
        let csr = &csrs[i];
        let upper = to_uppercase(csr.name().as_str());
        let number = fmt_hex_alt(csr.number() as u64);
        file.append("/// TODO: Write the CSR description\nconst CSR_");
        file.append(upper.as_str());
        file.append(": usize = ");
        file.append(number.as_str());
        file.append(";\n");
        i = i + 1;
        assert(file@ =~= start + concat_all(s.take(i as int), csr_const()));
    }

    file.append(
        "\nlet hypervisor_data = unsafe { HYPERVISOR_DATA.lock() };\nlet mut context = hypervisor_data.get().unwrap().guest().context;\n\n",
    );
    file.append("let csr_num = inst.rs2.unwrap();\nmatch csr_num {\n");

    let ghost start = file@;
    proof {
        lemma_concat_all_full(s, csr_arm());
    }
    let mut i: usize = 0;
    while i < csrs.len()
        invariant
            i <= csrs@.len(),
            s == csrs@,
            file@ == start + concat_all(s.take(i as int), csr_arm()),
        decreases csrs@.len() - i,
    {
        proof {
            lemma_concat_all_step(s, csr_arm(), i as int);
        }
        let csr = &csrs[i];
        let upper = to_uppercase(csr.name().as_str());
        let lower = csr.name().as_str();
        file.append("CSR_");
        file.append(upper.as_str());
        file.append(" => match inst.opc {\n    OpcodeKind::Zicsr(ZicsrOpcode::CSRRW)  => todo!(\"[");
        file.append(lower);
        file.append("] implement CSRRW instruction emulation\"),\n    OpcodeKind::Zicsr(ZicsrOpcode::CSRRS)  => todo!(\"[");
        file.append(lower);
        file.append("] implement CSRRS instruction emulation\"),\n    OpcodeKind::Zicsr(ZicsrOpcode::CSRRC)  => todo!(\"[");
        file.append(lower);
        file.append("] implement CSRRC instruction emulation\"),\n    OpcodeKind::Zicsr(ZicsrOpcode::CSRRWI) => todo!(\"[");
        file.append(lower);
        file.append("] implement CSRRWI instruction emulation\"),\n    OpcodeKind::Zicsr(ZicsrOpcode::CSRRSI) => todo!(\"[");
        file.append(lower);
        file.append("] implement CSRRSI instruction emulation\"),\n    OpcodeKind::Zicsr(ZicsrOpcode::CSRRCI) => todo!(\"[");
        file.append(lower);
        file.append("] implement CSRRCI instruction emulation\"),\n    _ => unreachable!(),\n},\n");
        i = i + 1;
        assert(file@ =~= start + concat_all(s.take(i as int), csr_arm()));
    }
    file.append(
        "    unsupported_csr_num => {\n        unimplemented!(\"unsupported CSRs: {unsupported_csr_num:#x}\")\n    }\n}\n",
    );
    assert(file@ =~= before + spec_csr_handler(csrs@));
}

/// The hypervisor module of the extension `ext` with the instructions
/// `insns` and the CSRs `csrs`.
pub open spec fn spec_hikami_module(ext: Seq<char>, insns: Seq<InstructionView>, csrs: Seq<Csr>) -> Seq<char> {
    "//! Emulation "@ + ext + "\n"@
        + "\n#![no_std]\n// TODO: FIX AND REMOVE IT!!!\n#![allow(static_mut_refs)]\n\nuse hikami_core::emulate_extension::EmulateExtension;\nuse hikami_core::HYPERVISOR_DATA;\n\nuse core::cell::OnceCell;\nuse spin::Mutex;\nuse raki::{Instruction, OpcodeKind, "@
        + ext + "Opcode, ZicsrOpcode};\n\n"@
        + "/// Singleton for "@ + ext + ".\npub static mut "@ + upper_text(ext)
        + "_DATA: Mutex<OnceCell<"@ + ext + ">> = Mutex::new(OnceCell::new());\n\n"@
        + "/// Singleton for "@ + ext + " extension\npub struct "@ + ext + ";\n\nimpl "@ + ext
        + " {\n    /// Constructor for `"@ + ext + "`.\n    pub fn new() -> Self {\n        "@ + ext
        + "\n    }\n}\n\n"@
        + spec_inst_handler(ext, insns)
        + "/// Emulate "@ + ext + " CSRs access.\nfn csr(&mut self, inst: &Instruction) {\n"@
        + spec_csr_handler(csrs)
        + "}\n\n"@
        + "\n/// Emulate CSR field that already exists.\nfn csr_field(&mut self, _inst: &Instruction) {\n    todo!(\"Implementing "@
        + ext + " CSR field emulation\");\n}\n"@
        + "\n/// Return whether given csr value is defined in the extension.\n///\n/// This function returns `false` always because there is no CSR to emulate.\nfn is_csr_defined(&self, _: u16) -> bool {\n    "@
        + spec_bool(csrs.len() > 0) + "\n}\n"@
        + "\n/// Return whether given csr value has newly defined field.\n///\n/// This function returns `false` always because there is no CSR to emulate fields.\nfn is_csr_field_defined(&self, _: u16) -> bool {\n    todo!(\"Implementing "@
        + ext + " CSR field definition\");\n}\n"@
        + "}\n"@
}

/// Genarate hypervisor module: the text of the emulation module of the
/// extension `ext_name` for the instructions `insns` and the CSRs `csrs`.
pub fn create_hikami_module(ext_name: &str, insns: &Vec<Instruction>, csrs: &Vec<Csr>) -> (r: String)
    ensures
        r@ == spec_hikami_module(ext_name@, views(insns@), csrs@),
{
    let mut file = String::new();
    file.append("//! Emulation ");
    file.append(ext_name);
    file.append("\n");
    file.append(
        "\n#![no_std]\n// TODO: FIX AND REMOVE IT!!!\n#![allow(static_mut_refs)]\n\nuse hikami_core::emulate_extension::EmulateExtension;\nuse hikami_core::HYPERVISOR_DATA;\n\nuse core::cell::OnceCell;\nuse spin::Mutex;\nuse raki::{Instruction, OpcodeKind, ",
    );
    file.append(ext_name);
    file.append("Opcode, ZicsrOpcode};\n\n");

    // generate a global data
    let upper = to_uppercase(ext_name);
    file.append("/// Singleton for ");
    file.append(ext_name);
    file.append(".\npub static mut ");
    file.append(upper.as_str());
    file.append("_DATA: Mutex<OnceCell<");
    file.append(ext_name);
    file.append(">> = Mutex::new(OnceCell::new());\n\n");

    // generate struct definition.
    file.append("/// Singleton for ");
    file.append(ext_name);
    file.append(" extension\npub struct ");
    file.append(ext_name);
    file.append(";\n\nimpl ");
    file.append(ext_name);
    file.append(" {\n    /// Constructor for `");
    file.append(ext_name);
    file.append("`.\n    pub fn new() -> Self {\n        ");
    file.append(ext_name);
    file.append("\n    }\n}\n\n");

    // generate implementation of ExtensionEmulation trait.
    generate_inst_handler(&mut file, ext_name, insns);

    file.append("/// Emulate ");
    file.append(ext_name);
    file.append(" CSRs access.\nfn csr(&mut self, inst: &Instruction) {\n");
    generate_csr_handler(&mut file, csrs);
    file.append("}\n\n");

    file.append("\n/// Emulate CSR field that already exists.\nfn csr_field(&mut self, _inst: &Instruction) {\n    todo!(\"Implementing ");
    file.append(ext_name);
    file.append(" CSR field emulation\");\n}\n");

    let defined = fmt_bool(csrs.len() != 0);
    file.append(
        "\n/// Return whether given csr value is defined in the extension.\n///\n/// This function returns `false` always because there is no CSR to emulate.\nfn is_csr_defined(&self, _: u16) -> bool {\n    ",
    );
    file.append(defined.as_str());
    file.append("\n}\n");

    file.append(
        "\n/// Return whether given csr value has newly defined field.\n///\n/// This function returns `false` always because there is no CSR to emulate fields.\nfn is_csr_field_defined(&self, _: u16) -> bool {\n    todo!(\"Implementing ",
    );
    file.append(ext_name);
    file.append(" CSR field definition\");\n}\n");

    file.append("}\n");
    assert(file@ =~= spec_hikami_module(ext_name@, views(insns@), csrs@));
    file
}

/// The end of the emulation module, from the doc comment of its
/// `is_csr_defined` on, where that function returns `defined`.
pub open spec fn is_csr_defined_tail(ext: Seq<char>, defined: bool) -> Seq<char> {
    "\n/// Return whether given csr value is defined in the extension.\n///\n/// This function returns `false` always because there is no CSR to emulate.\nfn is_csr_defined(&self, _: u16) -> bool {\n    "@
        + (if defined {
        "true"@
    } else {
        "false"@
    }) + "\n}\n"@
        + "\n/// Return whether given csr value has newly defined field.\n///\n/// This function returns `false` always because there is no CSR to emulate fields.\nfn is_csr_field_defined(&self, _: u16) -> bool {\n    todo!(\"Implementing "@
        + ext + " CSR field definition\");\n}\n"@ + "}\n"@
}

/// The emulation module says that the extension defines CSRs exactly where it
/// has some: its `is_csr_defined` returns `true` if and only if the list of
/// CSRs is not empty.
pub proof fn lemma_is_csr_defined_iff_csrs(ext: Seq<char>, insns: Seq<InstructionView>, csrs: Seq<Csr>)
    ensures
        ({
            let text = spec_hikami_module(ext, insns, csrs);
            let tail = is_csr_defined_tail(ext, csrs.len() > 0);
            text.len() >= tail.len() && text.subrange(text.len() - tail.len(), text.len() as int) == tail
        }),
{
    let text = spec_hikami_module(ext, insns, csrs);
    let tail = is_csr_defined_tail(ext, csrs.len() > 0);
    let head = "//! Emulation "@ + ext + "\n"@
        + "\n#![no_std]\n// TODO: FIX AND REMOVE IT!!!\n#![allow(static_mut_refs)]\n\nuse hikami_core::emulate_extension::EmulateExtension;\nuse hikami_core::HYPERVISOR_DATA;\n\nuse core::cell::OnceCell;\nuse spin::Mutex;\nuse raki::{Instruction, OpcodeKind, "@
        + ext + "Opcode, ZicsrOpcode};\n\n"@
        + "/// Singleton for "@ + ext + ".\npub static mut "@ + upper_text(ext)
        + "_DATA: Mutex<OnceCell<"@ + ext + ">> = Mutex::new(OnceCell::new());\n\n"@
        + "/// Singleton for "@ + ext + " extension\npub struct "@ + ext + ";\n\nimpl "@ + ext
        + " {\n    /// Constructor for `"@ + ext + "`.\n    pub fn new() -> Self {\n        "@ + ext
        + "\n    }\n}\n\n"@
        + spec_inst_handler(ext, insns)
        + "/// Emulate "@ + ext + " CSRs access.\nfn csr(&mut self, inst: &Instruction) {\n"@
        + spec_csr_handler(csrs)
        + "}\n\n"@
        + "\n/// Emulate CSR field that already exists.\nfn csr_field(&mut self, _inst: &Instruction) {\n    todo!(\"Implementing "@
        + ext + " CSR field emulation\");\n}\n"@
        ;
    assert(text =~= head + tail);
    assert((head + tail).subrange(head.len() as int, (head + tail).len() as int) =~= tail);
}

} // verus!
