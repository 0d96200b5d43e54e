//! What the generated `parse_opcode` does with a word, and that it decodes
//! the word of each generated test case to the instruction of the case.
//!
//! The match that
//! [`spec_field_pattern`](crate::generate_decoder::parse_operand::spec_field_pattern)
//! writes looks at one field per
//! level: its arms come in the order of [`keys_by_size`], an arm with a
//! value matches where the field of the word holds that value, `_` matches
//! anything, and the first arm that matches is taken. [`decode_field`] is
//! that reading of the same tree.

use std::ops::Range;

use vstd::prelude::*;

use crate::ast_util::instruction::{
    field_mask, field_value, imms_disjoint, is_imm_at, lemma_fixed_bits_hold, range_width, ranges_in_word,
    spec_random_insn_value, InstructionView, Operand,
};
use crate::generate_decoder::parse_operand::{
    dec, distinct_keys, field_pattern_ok, is_skip_level, keys_by_size, keys_of_size, op_binding, opc_key,
    spec_field_pattern, spec_opc_field_list, spec_parsing_opcode_func, spec_parsing_reg_func, spec_raki_decoder,
    spec_unit_tests, with_key,
};
use crate::text::{concat_all, contains_text, lemma_concat_all_contains, lemma_contains_in_middle, lower_text};
use crate::search::{first_match, lemma_first_match_some};

verus! {

/// Whether the pattern of an arm for the value `k` matches a field that
/// holds `v`: a value matches itself, and `_` (no value) matches anything.
pub open spec fn arm_matches(k: Option<u32>, v: u32) -> bool {
    match k {
        Some(p) => p == v,
        None => true,
    }
}

/// The instruction that the match over the field `list[idx]` gives for the
/// word `w`, with the fields after it for groups that share a value; none
/// where no arm matches.
pub open spec fn decode_field(s: Seq<InstructionView>, list: Seq<Range<u8>>, idx: int, w: u32) -> Option<
    InstructionView,
>
    decreases list.len() - idx, 2int, 0int,
{
    if 0 <= idx < list.len() {
        let r = list[idx];
        if is_skip_level(s, r) {
            decode_field(s, list, idx + 1, w)
        } else {
            decode_arms(s, list, idx, keys_by_size(distinct_keys(s, r), s, r, s.len()), w)
        }
    } else {
        None
    }
}

/// The instruction that the first of the arms for the values `ks` that
/// matches the word `w` gives.
pub open spec fn decode_arms(
    s: Seq<InstructionView>,
    list: Seq<Range<u8>>,
    idx: int,
    ks: Seq<Option<u32>>,
    w: u32,
) -> Option<InstructionView>
    decreases list.len() - idx, 1int, ks.len(),
{
    if ks.len() == 0 || !(0 <= idx < list.len()) {
        None
    } else if arm_matches(ks[0], field_value(w, list[idx])) {
        decode_arm(with_key(s, list[idx], ks[0]), list, idx, w)
    } else {
        decode_arms(s, list, idx, ks.drop_first(), w)
    }
}

/// The instruction that the arm for a group of instructions that share a
/// value of the field `list[idx]` gives for the word `w`.
pub open spec fn decode_arm(group: Seq<InstructionView>, list: Seq<Range<u8>>, idx: int, w: u32) -> Option<
    InstructionView,
>
    decreases list.len() - idx, 0int, 0int,
{
    if 0 <= idx < list.len() && group.len() > 0 {
        if group.len() == 1 {
            Some(group[0])
        } else {
            decode_field(group, list, idx + 1, w)
        }
    } else {
        None
    }
}

/// Every match written from the field `list[idx]` on has an arm with a value
/// for each of its groups: no instruction it tells apart lacks an immediate
/// over the field.
pub open spec fn arms_exact(s: Seq<InstructionView>, list: Seq<Range<u8>>, idx: int) -> bool
    decreases list.len() - idx,
{
    if 0 <= idx < list.len() {
        let r = list[idx];
        if is_skip_level(s, r) {
            arms_exact(s, list, idx + 1)
        } else {
            !distinct_keys(s, r).contains(None) && forall|g: int|
                0 <= g < distinct_keys(s, r).len() ==> #[trigger] with_key(s, r, distinct_keys(s, r)[g]).len() == 1
                    || arms_exact(with_key(s, r, distinct_keys(s, r)[g]), list, idx + 1)
        }
    } else {
        true
    }
}

/// The value of every immediate of `ops` fits in its field.
pub open spec fn imms_fit(ops: Seq<Operand>) -> bool {
    forall|k: int|
        0 <= k < ops.len() && (#[trigger] ops[k]) is Imm ==> ops[k]->Imm_0.value & field_mask(
            range_width(ops[k]->Imm_0.range),
        ) == ops[k]->Imm_0.value
}

/// The value of an instruction in `s` is among the distinct values.
proof fn lemma_key_in_distinct(s: Seq<InstructionView>, r: Range<u8>, x: InstructionView)
    requires
        s.contains(x),
    ensures
        distinct_keys(s, r).contains(opc_key(x, r)),
    decreases s.len(),
{
    let d = distinct_keys(s.drop_last(), r);
    let k = opc_key(s.last(), r);
    if x == s.last() {
        if !d.contains(k) {
            assert(d.push(k)[d.len() as int] == k);
        }
    } else {
        let i = choose|i: int| 0 <= i < s.len() && s[i] == x;
        assert(s.drop_last()[i] == x);
        lemma_key_in_distinct(s.drop_last(), r, x);
        if !d.contains(k) {
            let m = choose|m: int| 0 <= m < d.len() && d[m] == opc_key(x, r);
            assert(d.push(k)[m] == opc_key(x, r));
        }
    }
}

/// An instruction of `s` is in the group of its value.
proof fn lemma_in_own_group(s: Seq<InstructionView>, r: Range<u8>, x: InstructionView)
    requires
        s.contains(x),
    ensures
        with_key(s, r, opc_key(x, r)).contains(x),
    decreases s.len(),
{
    let key = opc_key(x, r);
    let rest = with_key(s.drop_last(), r, key);
    if x == s.last() {
        assert(rest.push(x)[rest.len() as int] == x);
    } else {
        let i = choose|i: int| 0 <= i < s.len() && s[i] == x;
        assert(s.drop_last()[i] == x);
        lemma_in_own_group(s.drop_last(), r, x);
        if opc_key(s.last(), r) == key {
            let m = choose|m: int| 0 <= m < rest.len() && rest[m] == x;
            assert(rest.push(s.last())[m] == x);
        }
    }
}

/// A group holds no more instructions than there are.
proof fn lemma_group_len_le(s: Seq<InstructionView>, r: Range<u8>, key: Option<u32>)
    ensures
        with_key(s, r, key).len() <= s.len(),
    decreases s.len(),
{
    if s.len() > 0 {
        lemma_group_len_le(s.drop_last(), r, key);
    }
}

/// A value among `keys` whose group has `l` instructions is among the values
/// of that size, and those are all among `keys`.
proof fn lemma_keys_of_size(keys: Seq<Option<u32>>, s: Seq<InstructionView>, r: Range<u8>, l: nat, k: Option<u32>)
    ensures
        keys.contains(k) && with_key(s, r, k).len() == l ==> keys_of_size(keys, s, r, l).contains(k),
        keys_of_size(keys, s, r, l).contains(k) ==> keys.contains(k),
    decreases keys.len(),
{
    if keys.len() > 0 {
        let rest = keys.drop_last();
        let d = keys_of_size(rest, s, r, l);
        lemma_keys_of_size(rest, s, r, l, k);
        if keys.contains(k) && with_key(s, r, k).len() == l {
            if k == keys.last() {
                assert(d.push(k)[d.len() as int] == k);
            } else {
                let i = choose|i: int| 0 <= i < keys.len() && keys[i] == k;
                assert(rest[i] == k);
                if with_key(s, r, keys.last()).len() == l {
                    let m = choose|m: int| 0 <= m < d.len() && d[m] == k;
                    assert(d.push(keys.last())[m] == k);
                }
            }
        }
        if keys_of_size(keys, s, r, l).contains(k) {
            if with_key(s, r, keys.last()).len() == l && k == keys.last() {
                assert(keys[keys.len() - 1] == k);
            } else {
                if with_key(s, r, keys.last()).len() == l {
                    let m = choose|m: int| 0 <= m < d.len() + 1 && d.push(keys.last())[m] == k;
                    assert(d[m] == k);
                }
                let i = choose|i: int| 0 <= i < rest.len() && rest[i] == k;
                assert(keys[i] == k);
            }
        }
    }
}

/// A value among `keys` whose group has between one and `upto` instructions
/// is among the values ordered by size, and those are all among `keys`.
proof fn lemma_keys_by_size(keys: Seq<Option<u32>>, s: Seq<InstructionView>, r: Range<u8>, upto: nat, k: Option<u32>)
    ensures
        keys.contains(k) && 1 <= with_key(s, r, k).len() <= upto ==> keys_by_size(keys, s, r, upto).contains(k),
        keys_by_size(keys, s, r, upto).contains(k) ==> keys.contains(k),
    decreases upto,
{
    if upto > 0 {
        let a = keys_by_size(keys, s, r, (upto - 1) as nat);
        let b = keys_of_size(keys, s, r, upto);
        lemma_keys_by_size(keys, s, r, (upto - 1) as nat, k);
        lemma_keys_of_size(keys, s, r, upto, k);
        if keys.contains(k) && 1 <= with_key(s, r, k).len() <= upto {
            if with_key(s, r, k).len() == upto {
                let m = choose|m: int| 0 <= m < b.len() && b[m] == k;
                assert((a + b)[a.len() + m] == k);
            } else {
                let m = choose|m: int| 0 <= m < a.len() && a[m] == k;
                assert((a + b)[m] == k);
            }
        }
        if (a + b).contains(k) {
            let m = choose|m: int| 0 <= m < (a + b).len() && (a + b)[m] == k;
            if m < a.len() {
                assert(a[m] == k);
            } else {
                assert(b[m - a.len()] == k);
            }
        }
    }
}

/// Where every value of `ks` is a value and `key` is the value of the field
/// `list[idx]` of the word, the first arm that matches is that of `key`.
proof fn lemma_decode_arms(
    s: Seq<InstructionView>,
    list: Seq<Range<u8>>,
    idx: int,
    ks: Seq<Option<u32>>,
    w: u32,
    key: Option<u32>,
)
    requires
        0 <= idx < list.len(),
        ks.contains(key),
        key == Some(field_value(w, list[idx])),
        !ks.contains(None),
    ensures
        decode_arms(s, list, idx, ks, w) == decode_arm(with_key(s, list[idx], key), list, idx, w),
    decreases ks.len(),
{
    if ks[0] != key {
        if ks[0] is None {
            assert(ks.contains(None));
        }
        let m = choose|m: int| 0 <= m < ks.len() && ks[m] == key;
        assert(ks.drop_first()[m - 1] == key);
        if ks.drop_first().contains(None) {
            let n = choose|n: int| 0 <= n < ks.drop_first().len() && ks.drop_first()[n] == None::<u32>;
            assert(ks[n + 1] == None::<u32>);
        }
        lemma_decode_arms(s, list, idx, ks.drop_first(), w, key);
    }
}

/// The match written from the field `list[idx]` on gives the instruction
/// `x` of `s` for every word whose fields from `list[idx]` on hold the
/// values of the immediates of `x` over them.
proof fn lemma_decode_field(s: Seq<InstructionView>, list: Seq<Range<u8>>, idx: int, x: InstructionView, w: u32)
    requires
        field_pattern_ok(s, list, idx),
        arms_exact(s, list, idx),
        s.contains(x),
        forall|j: int|
            idx <= j < list.len() ==> (#[trigger] opc_key(x, list[j]) matches Some(v) ==> field_value(w, list[j])
                == v),
    ensures
        decode_field(s, list, idx, w) == Some(x),
    decreases list.len() - idx,
{
    let r = list[idx];
    if is_skip_level(s, r) {
        lemma_decode_field(s, list, idx + 1, x, w);
    } else {
        let keys = distinct_keys(s, r);
        let key = opc_key(x, r);
        lemma_key_in_distinct(s, r, x);
        assert(key is Some);
        assert(opc_key(x, list[idx]) == key);
        let ks = keys_by_size(keys, s, r, s.len());
        let g = choose|g: int| 0 <= g < keys.len() && keys[g] == key;
        let group = with_key(s, r, key);
        assert(group == with_key(s, r, keys[g]));
        lemma_in_own_group(s, r, x);
        lemma_group_len_le(s, r, key);
        assert(group.len() >= 1) by {
            let i = choose|i: int| 0 <= i < group.len() && group[i] == x;
        }
        lemma_keys_by_size(keys, s, r, s.len(), key);
        lemma_keys_by_size(keys, s, r, s.len(), None);
        lemma_decode_arms(s, list, idx, ks, w, key);
        if group.len() == 1 {
            let i = choose|i: int| 0 <= i < group.len() && group[i] == x;
            assert(group[0] == x);
        } else {
            lemma_decode_field(group, list, idx + 1, x, w);
        }
    }
}

/// The decoder decodes the word of each test case to its instruction:
/// where the opcode fields tell the instructions apart with an arm of a
/// value for each group they form, and the immediates of the instruction
/// lie in disjoint ranges of a 32-bit word, each fitting its field, the
/// match of `parse_opcode` gives the instruction for the word of its test
/// case, whatever random word the case was built from.
pub proof fn lemma_decoder_decodes_test_word(insns: Seq<InstructionView>, i: int, raw: u32)
    requires
        field_pattern_ok(insns, spec_opc_field_list(insns), 0),
        arms_exact(insns, spec_opc_field_list(insns), 0),
        0 <= i < insns.len(),
        ranges_in_word(insns[i].operands),
        imms_disjoint(insns[i].operands),
        imms_fit(insns[i].operands),
    ensures
        decode_field(insns, spec_opc_field_list(insns), 0, spec_random_insn_value(insns[i], raw).0) == Some(
            insns[i],
        ),
{
    let x = insns[i];
    let list = spec_opc_field_list(insns);
    let w = spec_random_insn_value(x, raw).0;
    lemma_fixed_bits_hold(raw, x.operands);
    assert forall|j: int|
        0 <= j < list.len() implies (#[trigger] opc_key(x, list[j]) matches Some(v) ==> field_value(w, list[j])
        == v) by {
        let p = |op: Operand| is_imm_at(op, list[j]);
        if first_match(x.operands, p) is Some {
            lemma_first_match_some(x.operands, p);
            let op = first_match(x.operands, p)->Some_0;
            let k = choose|k: int| 0 <= k < x.operands.len() && x.operands[k] == op;
            assert(x.operands[k] is Imm);
        }
    }
    assert(insns.contains(x));
    lemma_decode_field(insns, list, 0, x, w);
}

/// The line of `parse_opcode` that binds the bits of the opcode field `r`:
/// to a `u8` where the field spans at most eight steps from its lowest to its
/// highest bit, and to a `u16` where it is wider.
pub open spec fn width_typed_binding(r: Range<u8>) -> Seq<char> {
    let t = if r.end - r.start > 8 {
        "u16"@
    } else {
        "u8"@
    };
    "let op_"@ + dec(r.end) + "_"@ + dec(r.start) + ": "@ + t + " = "@ + t + "::try_from(inst.slice("@ + dec(r.end)
        + ", "@ + dec(r.start) + ")).unwrap(); \n"@
}

/// The binding of the `k`-th opcode field occurs in the decoder module.
#[verifier::spinoff_prover]
#[verifier::rlimit(30)]
proof fn lemma_binding_in_decoder(ext: Seq<char>, s: Seq<InstructionView>, raws: Seq<u32>, k: int)
    requires
        0 <= k < spec_opc_field_list(s).len(),
    ensures
        contains_text(spec_raki_decoder(ext, s, raws), width_typed_binding(spec_opc_field_list(s)[k])),
{
    let list = spec_opc_field_list(s);
    let line = width_typed_binding(list[k]);
    assert(op_binding()(list[k]) == line);
    lemma_concat_all_contains(list, op_binding(), k);
    let bindings = concat_all(list, op_binding());
    let a = "pub fn parse_opcode(inst: u32) -> Result<"@ + ext + "Opcode, DecodingError> {\n"@;
    let b = spec_field_pattern(ext, s, list, 0) + "}\n\n"@;
    lemma_contains_in_middle(a, bindings, b, line);
    let opf = spec_parsing_opcode_func(ext, s);
    assert(opf =~= a + bindings + b);
    let head = "//! "@ + ext
        + " extension decoder\n\nuse super::super::{DecodeUtil, DecodingError};\nuse crate::instruction::"@
        + lower_text(ext) + "_extension::"@ + ext + "Opcode;\n\n"@;
    let tail = spec_parsing_reg_func("rd"@, ext, s) + spec_parsing_reg_func("rs1"@, ext, s)
        + spec_parsing_reg_func("rs2"@, ext, s) + spec_parsing_reg_func("imm"@, ext, s) + spec_unit_tests(
        ext,
        s,
        raws,
    );
    lemma_contains_in_middle(head, opf, tail, line);
    assert(spec_raki_decoder(ext, s, raws) =~= head + opf + tail);
}

/// Every opcode field is bound in the decoder module with a type as wide as
/// its span asks: `u16` for a field of more than eight steps, `u8` only for a
/// narrower one.
pub proof fn lemma_decoder_binds_fields_by_width(ext: Seq<char>, s: Seq<InstructionView>, raws: Seq<u32>)
    ensures
        forall|k: int|
            0 <= k < spec_opc_field_list(s).len() ==> contains_text(
                spec_raki_decoder(ext, s, raws),
                width_typed_binding(#[trigger] spec_opc_field_list(s)[k]),
            ),
{
    assert forall|k: int| 0 <= k < spec_opc_field_list(s).len() implies contains_text(
        spec_raki_decoder(ext, s, raws),
        width_typed_binding(#[trigger] spec_opc_field_list(s)[k]),
    ) by {
        lemma_binding_in_decoder(ext, s, raws, k);
    }
}

} // verus!
