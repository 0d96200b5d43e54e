//! Generate a instruction definition.

use vstd::prelude::*;

use crate::ast_util::instruction::{views, Instruction, InstructionView};
use crate::text::{
    all_ascii, ascii_lower, ascii_upper, concat_all, contains_text, lemma_concat_all_contains,
    lemma_concat_all_full, lemma_concat_all_step, lemma_contains_in_middle, lower_text, upper_text,
    strip_riscv, strip_riscv_prefix, to_lowercase, to_uppercase,
};

verus! {

/// The opcode variant of an instruction: its name without `RISCV_`, in upper case.
pub open spec fn opcode_variant(insn: InstructionView) -> Seq<char> {
    upper_text(strip_riscv(insn.name@))
}

/// The mnemonic of an instruction: its name without `RISCV_`, in lower case.
pub open spec fn opcode_mnemonic(insn: InstructionView) -> Seq<char> {
    lower_text(strip_riscv(insn.name@))
}

/// The opcode variant of an instruction.
pub fn opcode_variant_of(insn: &Instruction) -> (r: String)
    ensures
        r@ == opcode_variant(insn@),
{
    let stripped = strip_riscv_prefix(insn.name.as_str());
    to_uppercase(stripped.as_str())
}

/// The mnemonic of an instruction.
pub fn opcode_mnemonic_of(insn: &Instruction) -> (r: String)
    ensures
        r@ == opcode_mnemonic(insn@),
{
    let stripped = strip_riscv_prefix(insn.name.as_str());
    to_lowercase(stripped.as_str())
}

/// The variant declaration of an instruction in the opcode enum.
pub open spec fn enum_line() -> spec_fn(InstructionView) -> Seq<char> {
    |i: InstructionView|
        "\t/// TODO: Add a description of the instruction here.\n\t"@ + opcode_variant(i) + ",\n\n"@
}

/// The `Display` arm of an instruction.
pub open spec fn display_line(ext: Seq<char>) -> spec_fn(InstructionView) -> Seq<char> {
    |i: InstructionView| "\t\t\t"@ + ext + "Opcode::"@ + opcode_variant(i) + " => write!(f, \""@ + opcode_mnemonic(i) + "\"),\n"@
}

/// The `get_format` arm of an instruction.
pub open spec fn format_line(ext: Seq<char>) -> spec_fn(InstructionView) -> Seq<char> {
    |i: InstructionView| "\t\t\t"@ + ext + "Opcode::"@ + opcode_variant(i) + " => InstFormat:: ,\n"@
}

/// The instruction definition module of the extension `ext`.
pub open spec fn spec_raki_insn_def(ext: Seq<char>, insns: Seq<InstructionView>) -> Seq<char> {
    "//! "@ + ext + " extension Instruction\n\nuse super::{InstFormat, Opcode};\nuse core::fmt::{self, Display, Formatter};\n\n"@
        + "/// Insturctions in "@ + ext
        + " Extension.\n#[allow(non_camel_case_types, clippy::upper_case_acronyms)]\n#[derive(Debug, PartialEq)]\npub enum "@
        + ext + "Opcode {\n"@ + concat_all(insns, enum_line()) + "}\n"@
        + "\nimpl Display for "@ + ext + "Opcode {\n    fn fmt(&self, f: &mut Formatter) -> fmt::Result {\n        match self {\n"@
        + concat_all(insns, display_line(ext)) + "        }\n    }\n}\n"@
        + "\nimpl Opcode for "@ + ext + "Opcode {\n    fn get_format(&self) -> InstFormat {\n        match self {\n"@
        + concat_all(insns, format_line(ext)) + "        }\n    }\n}\n"@
}

/// Genarate decoder implementation: the text of the instruction definition
/// module of the extension `ext_name`, with one opcode for each instruction.
pub fn create_raki_insn_def(ext_name: &str, insns: &Vec<Instruction>) -> (r: String)
    ensures
        r@ == spec_raki_insn_def(ext_name@, views(insns@)),
{
    let ghost s = views(insns@);
    let ghost ext = ext_name@;
    let mut file = String::new();

    // Doc comment and import statements.
    file.append("//! ");
    file.append(ext_name);
    file.append(" extension Instruction\n\nuse super::{InstFormat, Opcode};\nuse core::fmt::{self, Display, Formatter};\n\n");

    // Insturction definitions.
    file.append("/// Insturctions in ");
    file.append(ext_name);
    file.append(" Extension.\n#[allow(non_camel_case_types, clippy::upper_case_acronyms)]\n#[derive(Debug, PartialEq)]\npub enum ");
    file.append(ext_name);
    file.append("Opcode {\n");
    let ghost start = file@;
    proof {
        lemma_concat_all_full(s, enum_line());
    }
    let mut i: usize = 0;
    while i < insns.len()
        invariant
            i <= insns@.len(),
            s == views(insns@),
            file@ == start + concat_all(s.take(i as int), enum_line()),
        decreases insns@.len() - i,
    {
        proof {
            lemma_concat_all_step(s, enum_line(), i as int);
        }
        let variant = opcode_variant_of(&insns[i]);
        file.append("\t/// TODO: Add a description of the instruction here.\n\t");
        file.append(variant.as_str());
        file.append(",\n\n");
        i = i + 1;
        assert(file@ =~= start + concat_all(s.take(i as int), enum_line()));
    }
    file.append("}\n");

    // `Display` tarit implementation.
    file.append("\nimpl Display for ");
    file.append(ext_name);
    file.append("Opcode {\n    fn fmt(&self, f: &mut Formatter) -> fmt::Result {\n        match self {\n");
    let ghost start = file@;
    proof {
        lemma_concat_all_full(s, display_line(ext));
    }
    let mut i: usize = 0;
    while i < insns.len()
        invariant
            i <= insns@.len(),
            s == views(insns@),
            ext == ext_name@,
            file@ == start + concat_all(s.take(i as int), display_line(ext)),
        decreases insns@.len() - i,
    {
        proof {
            lemma_concat_all_step(s, display_line(ext), i as int);
        }
        let variant = opcode_variant_of(&insns[i]);
        let mnemonic = opcode_mnemonic_of(&insns[i]);
        file.append("\t\t\t");
        file.append(ext_name);
        file.append("Opcode::");
        file.append(variant.as_str());
        file.append(" => write!(f, \"");
        file.append(mnemonic.as_str());
        file.append("\"),\n");
        i = i + 1;
        assert(file@ =~= start + concat_all(s.take(i as int), display_line(ext)));
    }
    file.append("        }\n    }\n}\n");

    // `Opcode` tarit implementation.
    file.append("\nimpl Opcode for ");
    file.append(ext_name);
    file.append("Opcode {\n    fn get_format(&self) -> InstFormat {\n        match self {\n");
    let ghost start = file@;
    proof {
        lemma_concat_all_full(s, format_line(ext));
    }
    let mut i: usize = 0;
    while i < insns.len()
        invariant
            i <= insns@.len(),
            s == views(insns@),
            ext == ext_name@,
            file@ == start + concat_all(s.take(i as int), format_line(ext)),
        decreases insns@.len() - i,
    {
        proof {
            lemma_concat_all_step(s, format_line(ext), i as int);
        }
        let variant = opcode_variant_of(&insns[i]);
        file.append("\t\t\t");
        file.append(ext_name);
        file.append("Opcode::");
        file.append(variant.as_str());
        file.append(" => InstFormat:: ,\n");
        i = i + 1;
        assert(file@ =~= start + concat_all(s.take(i as int), format_line(ext)));
    }
    file.append("        }\n    }\n}\n");
    assert(file@ =~= spec_raki_insn_def(ext_name@, views(insns@)));
    file
}

/// Where the name `n` starts with `RISCV_`, the position just after it;
/// otherwise the start.
pub open spec fn plain_start(n: Seq<char>) -> int {
    if n.len() >= 6 && n[0] == 'R' && n[1] == 'I' && n[2] == 'S' && n[3] == 'C' && n[4] == 'V' && n[5] == '_' {
        6
    } else {
        0
    }
}

/// The characters of the name `n` from [`plain_start`] on, each in upper
/// case (`lower` false) or in lower case (`lower` true), one for one.
pub open spec fn cased_plain_name(n: Seq<char>, lower: bool) -> Seq<char> {
    Seq::new(
        (n.len() - plain_start(n)) as nat,
        |j: int|
            if lower {
                ascii_lower(n[plain_start(n) + j])
            } else {
                ascii_upper(n[plain_start(n) + j])
            },
    )
}

/// The opcode module prints each instruction with an ASCII name by its whole
/// name: its `Display` arm names the variant that is the name without a
/// leading `RISCV_` in upper case and writes the mnemonic that is the same
/// characters in lower case, each character kept, none dropped.
pub proof fn lemma_display_arms_print_whole_names(ext: Seq<char>, s: Seq<InstructionView>)
    ensures
        forall|k: int|
            0 <= k < s.len() && all_ascii(#[trigger] s[k].name@) ==> contains_text(
                spec_raki_insn_def(ext, s),
                "\t\t\t"@ + ext + "Opcode::"@ + cased_plain_name(s[k].name@, false) + " => write!(f, \""@
                    + cased_plain_name(s[k].name@, true) + "\"),\n"@,
            ),
{
    assert forall|k: int| 0 <= k < s.len() && all_ascii(#[trigger] s[k].name@) implies contains_text(
        spec_raki_insn_def(ext, s),
        "\t\t\t"@ + ext + "Opcode::"@ + cased_plain_name(s[k].name@, false) + " => write!(f, \""@
            + cased_plain_name(s[k].name@, true) + "\"),\n"@,
    ) by {
        let n = s[k].name@;
        let stripped = strip_riscv(n);
        reveal_strlit("RISCV_");
        if n.len() >= 6 && n.take(6) == "RISCV_"@ {
            assert(n.take(6)[0] == 'R' && n.take(6)[1] == 'I' && n.take(6)[2] == 'S');
            assert(n.take(6)[3] == 'C' && n.take(6)[4] == 'V' && n.take(6)[5] == '_');
        } else if plain_start(n) == 6 {
            assert(n.take(6) =~= "RISCV_"@);
        }
        assert(stripped =~= n.skip(plain_start(n)));
        assert(all_ascii(stripped));
        reveal(upper_text);
        reveal(lower_text);
        assert(opcode_variant(s[k]) =~= cased_plain_name(n, false));
        assert(opcode_mnemonic(s[k]) =~= cased_plain_name(n, true));
        let line = display_line(ext)(s[k]);
        lemma_concat_all_contains(s, display_line(ext), k);
        let head = "//! "@ + ext + " extension Instruction\n\nuse super::{InstFormat, Opcode};\nuse core::fmt::{self, Display, Formatter};\n\n"@
            + "/// Insturctions in "@ + ext
            + " Extension.\n#[allow(non_camel_case_types, clippy::upper_case_acronyms)]\n#[derive(Debug, PartialEq)]\npub enum "@
            + ext + "Opcode {\n"@ + concat_all(s, enum_line()) + "}\n"@
            + "\nimpl Display for "@ + ext + "Opcode {\n    fn fmt(&self, f: &mut Formatter) -> fmt::Result {\n        match self {\n"@;
        let tail = "        }\n    }\n}\n"@
            + "\nimpl Opcode for "@ + ext + "Opcode {\n    fn get_format(&self) -> InstFormat {\n        match self {\n"@
            + concat_all(s, format_line(ext)) + "        }\n    }\n}\n"@;
        lemma_contains_in_middle(head, concat_all(s, display_line(ext)), tail, line);
        assert(spec_raki_insn_def(ext, s) =~= head + concat_all(s, display_line(ext)) + tail);
    }
}

} // verus!
