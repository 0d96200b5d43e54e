//! Generate a parsing operand module.

use std::ops::Range;

use vstd::prelude::*;

use crate::ast_util::instruction::{
    copy_range, op_range, ranges_in_word, Operand, spec_field_by_name, spec_imm_fields, spec_imm_value_by_range,
    spec_random_insn_value, views, Immediate, Instruction, InstructionView,
};
use crate::generate_decoder::instruction_definition::{opcode_variant, opcode_variant_of};
use crate::text::{
    concat_all, fmt_binary_alt, fmt_decimal, fmt_option_debug, lemma_concat_all_full,
    lemma_concat_all_step, spec_binary_alt, spec_digits, spec_option_debug, lower_text,
    to_lowercase,
};

verus! {

/// The value of an instruction's immediate over `range`, if it has one.
pub open spec fn opc_key(insn: InstructionView, range: Range<u8>) -> Option<u32> {
    spec_imm_value_by_range(insn.operands, range)
}

/// The distinct values over `range` of a list of instructions, in the order
/// in which they first occur.
pub open spec fn distinct_keys(s: Seq<InstructionView>, range: Range<u8>) -> Seq<Option<u32>>
    decreases s.len(),
{
    if s.len() == 0 {
        Seq::empty()
    } else {
        let d = distinct_keys(s.drop_last(), range);
        let k = opc_key(s.last(), range);
        if d.contains(k) {
            d
        } else {
            d.push(k)
        }
    }
}

/// The instructions of `s` whose value over `range` is `key`, in order.
pub open spec fn with_key(s: Seq<InstructionView>, range: Range<u8>, key: Option<u32>) -> Seq<InstructionView>
    decreases s.len(),
{
    if s.len() == 0 {
        Seq::empty()
    } else {
        let r = with_key(s.drop_last(), range, key);
        if opc_key(s.last(), range) == key {
            r.push(s.last())
        } else {
            r
        }
    }
}

/// No instruction has a value that is not among the distinct values.
proof fn lemma_with_absent_key(s: Seq<InstructionView>, range: Range<u8>, key: Option<u32>)
    requires
        !distinct_keys(s, range).contains(key),
    ensures
        with_key(s, range, key) == Seq::<InstructionView>::empty(),
    decreases s.len(),
{
    if s.len() > 0 {
        let d = distinct_keys(s.drop_last(), range);
        let k = opc_key(s.last(), range);
        if d.contains(key) {
            let m = choose|m: int| 0 <= m < d.len() && d[m] == key;
            if !d.contains(k) {
                assert(d.push(k)[m] == key);
            }
            assert(false);
        }
        if k == key {
            if !d.contains(k) {
                assert(d.push(k)[d.len() as int] == k);
            }
            assert(false);
        }
        lemma_with_absent_key(s.drop_last(), range, key);
    }
}

/// The distinct values hold no value twice.
proof fn lemma_distinct_keys_unique(s: Seq<InstructionView>, range: Range<u8>)
    ensures
        distinct_keys(s, range).no_duplicates(),
    decreases s.len(),
{
    if s.len() > 0 {
        lemma_distinct_keys_unique(s.drop_last(), range);
    }
}

/// The total number of instructions in the groups of `keys`.
pub open spec fn sum_group_lens(s: Seq<InstructionView>, range: Range<u8>, keys: Seq<Option<u32>>) -> nat
    decreases keys.len(),
{
    if keys.len() == 0 {
        0
    } else {
        sum_group_lens(s, range, keys.drop_last()) + with_key(s, range, keys.last()).len()
    }
}

/// Adding an instruction with value `k0` adds one to the total of any list
/// of distinct keys that holds `k0`, and nothing to the others.
proof fn lemma_sum_group_lens_push(s: Seq<InstructionView>, range: Range<u8>, x: InstructionView, keys: Seq<Option<u32>>)
    requires
        keys.no_duplicates(),
    ensures
        sum_group_lens(s.push(x), range, keys) == sum_group_lens(s, range, keys) + if keys.contains(
            opc_key(x, range),
        ) {
            1nat
        } else {
            0nat
        },
    decreases keys.len(),
{
    let t = s.push(x);
    assert(t.drop_last() =~= s);
    if keys.len() > 0 {
        let rest = keys.drop_last();
        assert(rest.no_duplicates());
        lemma_sum_group_lens_push(s, range, x, rest);
        let k = keys.last();
        if keys.contains(opc_key(x, range)) && k != opc_key(x, range) {
            let m = choose|m: int| 0 <= m < keys.len() && keys[m] == opc_key(x, range);
            assert(rest[m] == opc_key(x, range));
        }
        if rest.contains(opc_key(x, range)) {
            let m = choose|m: int| 0 <= m < rest.len() && rest[m] == opc_key(x, range);
            assert(keys[m] == rest[m]);
            assert(k != opc_key(x, range));
        }
        if k == opc_key(x, range) {
            assert(keys[keys.len() - 1] == k);
        }
    }
}

/// A value among the distinct values has a nonempty group.
proof fn lemma_present_key_nonempty(s: Seq<InstructionView>, range: Range<u8>, key: Option<u32>)
    requires
        distinct_keys(s, range).contains(key),
    ensures
        with_key(s, range, key).len() > 0,
    decreases s.len(),
{
    let d = distinct_keys(s.drop_last(), range);
    if opc_key(s.last(), range) != key {
        if !d.contains(key) {
            let m = choose|m: int| 0 <= m < distinct_keys(s, range).len() && distinct_keys(s, range)[m] == key;
            assert(distinct_keys(s, range) == d.push(opc_key(s.last(), range)));
            assert(m < d.len());
            assert(false);
        }
        lemma_present_key_nonempty(s.drop_last(), range, key);
    }
}

/// Every instruction in the group of `key` has the value `key`.
proof fn lemma_with_key_members(s: Seq<InstructionView>, range: Range<u8>, key: Option<u32>)
    ensures
        forall|m: int|
            0 <= m < with_key(s, range, key).len() ==> opc_key(#[trigger] with_key(s, range, key)[m], range)
                == key,
    decreases s.len(),
{
    if s.len() > 0 {
        lemma_with_key_members(s.drop_last(), range, key);
    }
}

/// Grouping by the value over `range` partitions the instructions: the
/// values are distinct, every group is nonempty and holds only instructions
/// with its value, and the groups hold as many instructions as there are.
pub proof fn lemma_groups_partition(s: Seq<InstructionView>, range: Range<u8>)
    ensures
        distinct_keys(s, range).no_duplicates(),
        forall|g: int|
            0 <= g < distinct_keys(s, range).len() ==> #[trigger] with_key(s, range, distinct_keys(s, range)[g]).len()
                > 0,
        forall|g: int, m: int|
            0 <= g < distinct_keys(s, range).len() && 0 <= m < with_key(s, range, distinct_keys(s, range)[g]).len()
                ==> opc_key(#[trigger] with_key(s, range, distinct_keys(s, range)[g])[m], range)
                == distinct_keys(s, range)[g],
        sum_group_lens(s, range, distinct_keys(s, range)) == s.len(),
    decreases s.len(),
{
    lemma_distinct_keys_unique(s, range);
    let d = distinct_keys(s, range);
    assert forall|g: int| 0 <= g < d.len() implies #[trigger] with_key(s, range, d[g]).len() > 0 by {
        lemma_present_key_nonempty(s, range, d[g]);
    }
    assert forall|g: int, m: int|
        0 <= g < d.len() && 0 <= m < with_key(s, range, d[g]).len() implies opc_key(
        #[trigger] with_key(s, range, d[g])[m],
        range,
    ) == d[g] by {
        lemma_with_key_members(s, range, d[g]);
    }
    if s.len() > 0 {
        let sp = s.drop_last();
        let x = s.last();
        assert(sp.push(x) =~= s);
        lemma_groups_partition(sp, range);
        let dp = distinct_keys(sp, range);
        lemma_sum_group_lens_push(sp, range, x, dp);
        let k0 = opc_key(x, range);
        if !dp.contains(k0) {
            lemma_with_absent_key(sp, range, k0);
            assert(d.drop_last() =~= dp);
            assert(with_key(s, range, k0).len() == 1);
        }
    }
}

/// Whether two optional values are equal.
fn same_key(a: Option<u32>, b: Option<u32>) -> (r: bool)
    ensures
        r == (a == b),
{
    match (a, b) {
        (Some(x), Some(y)) => x == y,
        (None, None) => true,
        _ => false,
    }
}

/// Group instructions by an opc field value: one group for each distinct
/// value over `opc_range` (no value where an instruction has no immediate
/// there), in the order in which the values first occur; each group holds
/// the instructions with that value, in order.
///
/// The groups are kept in a `Vec` of distinct values rather than a hash map
/// keyed by the value: the keys are optional values, which vstd's hash map
/// specification does not cover (its laws hold for keys that obey its key
/// model, which vstd grants to integers and booleans only), and a
/// hash map would hand its groups out in an order that depends on the
/// hasher's seed. The order of first occurrence is one such order, and is
/// the same on every run.
pub fn group_by_opc_value(insns: &Vec<Instruction>, opc_range: &Range<u8>) -> (r: Vec<Vec<Instruction>>)
    ensures
        r@.len() == distinct_keys(views(insns@), *opc_range).len(),
        forall|g: int|
            0 <= g < r@.len() ==> #[trigger] views(r@[g]@) == with_key(
                views(insns@),
                *opc_range,
                distinct_keys(views(insns@), *opc_range)[g],
            ),
{
    let ghost s = views(insns@);
    let mut groups: Vec<Vec<Instruction>> = Vec::new();
    let mut keys: Vec<Option<u32>> = Vec::new();
    let mut i: usize = 0;
    assert(s.take(0) =~= Seq::<InstructionView>::empty());
    while i < insns.len()
        invariant
            i <= insns@.len(),
            s == views(insns@),
            keys@ == distinct_keys(s.take(i as int), *opc_range),
            groups@.len() == keys@.len(),
            forall|g: int|
                0 <= g < groups@.len() ==> #[trigger] views(groups@[g]@) == with_key(
                    s.take(i as int),
                    *opc_range,
                    keys@[g],
                ),
        decreases insns@.len() - i,
    {
        let ghost t = s.take(i as int);
        let ghost t1 = s.take(i + 1);
        assert(t1.drop_last() =~= t);
        assert(t1.last() == insns@[i as int]@);
        proof {
            lemma_distinct_keys_unique(t, *opc_range);
        }
        let key = insns[i].get_imm_value_by_range(opc_range);
        let mut j: usize = 0;
        while j < keys.len()
            invariant
                j <= keys@.len(),
                forall|m: int| 0 <= m < j ==> keys@[m] != key,
            ensures
                j <= keys@.len(),
                forall|m: int| 0 <= m < j ==> keys@[m] != key,
                j < keys@.len() ==> keys@[j as int] == key,
            decreases keys@.len() - j,
        {
            if same_key(keys[j], key) {
                break;
            }
            j = j + 1;
        }
        let insn = insns[i].copy();
        if j < keys.len() {
            let ghost old_groups = groups@;
            assert(keys@[j as int] == key);
            groups[j].push(insn);
            assert forall|g: int| 0 <= g < groups@.len() implies #[trigger] views(groups@[g]@) == with_key(
                t1,
                *opc_range,
                keys@[g],
            ) by {
                if g == j {
                    assert(views(groups@[g]@) =~= views(old_groups[g]@).push(insn@));
                } else {
                    assert(keys@[g] != keys@[j as int]);
                    assert(groups@[g] == old_groups[g]);
                }
            }
        } else {
            assert(!keys@.contains(key));
            proof {
                lemma_with_absent_key(t, *opc_range, key);
            }
            let mut group: Vec<Instruction> = Vec::new();
            group.push(insn);
            assert(views(group@) =~= seq![insn@]);
            groups.push(group);
            keys.push(key);
        }
        i = i + 1;
    }
    assert(s.take(i as int) =~= s);
    groups
}

/// A number in decimal.
pub open spec fn dec(n: u8) -> Seq<char> {
    spec_digits(n as nat, 10)
}

/// The range of the field called `reg` of an instruction, if it has one.
pub open spec fn reg_range(insn: InstructionView, reg: Seq<char>) -> Option<Range<u8>> {
    match spec_field_by_name(insn.operands, reg) {
        Some(n) => Some(n.range),
        None => None,
    }
}

/// The distinct ranges of the fields called `reg`, in the order in which
/// they first occur.
pub open spec fn distinct_reg_ranges(insns: Seq<InstructionView>, reg: Seq<char>) -> Seq<Range<u8>>
    decreases insns.len(),
{
    if insns.len() == 0 {
        Seq::empty()
    } else {
        let d = distinct_reg_ranges(insns.drop_last(), reg);
        match reg_range(insns.last(), reg) {
            Some(r) => if d.contains(r) {
                d
            } else {
                d.push(r)
            },
            None => d,
        }
    }
}

/// The binding of a register field's bits.
pub open spec fn reg_binding(reg: Seq<char>) -> spec_fn(Range<u8>) -> Seq<char> {
    |r: Range<u8>|
        "\tlet "@ + reg + "_"@ + dec(r.end) + "_"@ + dec(r.start) + ": usize = inst.slice("@ + dec(r.end) + ", "@
            + dec(r.start) + ") as usize;\n"@
}

/// The arm of an instruction in the parsing function of `reg`.
pub open spec fn reg_arm(ext: Seq<char>, reg: Seq<char>) -> spec_fn(InstructionView) -> Seq<char> {
    |i: InstructionView|
        "\t\t"@ + ext + "Opcode::"@ + opcode_variant(i) + " => "@ + match reg_range(i, reg) {
            Some(r) => "Some("@ + reg + "_"@ + dec(r.end) + "_"@ + dec(r.start) + "),"@,
            None => "None,"@,
        } + "\n"@
}

/// The function that parses the field `reg` of the instructions of `ext`.
pub open spec fn spec_parsing_reg_func(reg: Seq<char>, ext: Seq<char>, insns: Seq<InstructionView>) -> Seq<char> {
    "/// Parsing "@ + ext + " instruction's "@ + reg + "\npub fn parse_"@ + reg + "(inst: u32, opkind: &"@ + ext
        + "Opcode) -> Option<usize> {\n"@ + concat_all(distinct_reg_ranges(insns, reg), reg_binding(reg))
        + "\tmatch opkind {\n"@ + concat_all(insns, reg_arm(ext, reg)) + "    }\n}\n\n"@
}

/// Whether two bit ranges are equal.
fn same_range(a: &Range<u8>, b: &Range<u8>) -> (r: bool)
    ensures
        r == (*a == *b),
{
    a.start == b.start && a.end == b.end
}

/// Appends `reg_end_start`.
fn push_reg_name(file: &mut String, reg: &str, r: &Range<u8>)
    ensures
        final(file)@ == old(file)@ + reg@ + "_"@ + dec(r.end) + "_"@ + dec(r.start),
{
    let end = fmt_decimal(r.end as u64);
    let start = fmt_decimal(r.start as u64);
    file.append(reg);
    file.append("_");
    file.append(end.as_str());
    file.append("_");
    file.append(start.as_str());
}

/// Appends the binding of a register field's bits.
fn push_reg_binding(file: &mut String, reg: &str, r: &Range<u8>)
    ensures
        final(file)@ == old(file)@ + reg_binding(reg@)(*r),
{
    let end = fmt_decimal(r.end as u64);
    let begin = fmt_decimal(r.start as u64);
    file.append("\tlet ");
    push_reg_name(file, reg, r);
    file.append(": usize = inst.slice(");
    file.append(end.as_str());
    file.append(", ");
    file.append(begin.as_str());
    file.append(") as usize;\n");
    assert(file@ =~= old(file)@ + reg_binding(reg@)(*r));
}

/// Appends the arm of an instruction in the parsing function of `reg`.
fn push_reg_arm(file: &mut String, ext_name: &str, reg: &str, insn: &Instruction)
    ensures
        final(file)@ == old(file)@ + reg_arm(ext_name@, reg@)(insn@),
{
    let variant = opcode_variant_of(insn);
    file.append("\t\t");
    file.append(ext_name);
    file.append("Opcode::");
    file.append(variant.as_str());
    file.append(" => ");
    match insn.get_field_by_name(reg) {
        Some(reg_field) => {
            file.append("Some(");
            push_reg_name(file, reg, &reg_field.range);
            file.append("),");
        },
        None => {
            file.append("None,");
        },
    }
    file.append("\n");
    assert(file@ =~= old(file)@ + reg_arm(ext_name@, reg@)(insn@));
}

/// The distinct ranges of the fields called `reg`, in the order in which
/// they first occur.
///
/// A `Vec` with no range twice stands for a set of ranges: vstd's hash set
/// specification covers elements of its key model only (integers and
/// booleans), not `Range`s, and a hash set would
/// hand them out in an order that depends on the hasher's seed.
fn collect_reg_ranges(insns: &Vec<Instruction>, reg: &str) -> (r: Vec<Range<u8>>)
    ensures
        r@ == distinct_reg_ranges(views(insns@), reg@),
{
    let ghost s = views(insns@);
    let mut ranges: Vec<Range<u8>> = Vec::new();
    let mut i: usize = 0;
    assert(s.take(0) =~= Seq::<InstructionView>::empty());
    while i < insns.len()
        invariant
            i <= insns@.len(),
            s == views(insns@),
            ranges@ == distinct_reg_ranges(s.take(i as int), reg@),
        decreases insns@.len() - i,
    {
        assert(s.take(i + 1).drop_last() =~= s.take(i as int));
        assert(s.take(i + 1).last() == insns@[i as int]@);
        if let Some(field) = insns[i].get_field_by_name(reg) {
            let mut j: usize = 0;
            let mut found = false;
            while j < ranges.len()
                invariant_except_break
                    !found,
                invariant
                    j <= ranges@.len(),
                    forall|m: int| 0 <= m < j ==> ranges@[m] != field.range,
                ensures
                    j <= ranges@.len(),
                    found ==> j < ranges@.len() && ranges@[j as int] == field.range,
                    !found ==> j == ranges@.len(),
                    forall|m: int| 0 <= m < j ==> ranges@[m] != field.range,
                decreases ranges@.len() - j,
            {
                if same_range(&ranges[j], &field.range) {
                    found = true;
                    break;
                }
                j = j + 1;
            }
            if !found {
                assert(!ranges@.contains(field.range));
                ranges.push(copy_range(&field.range));
            } else {
                assert(ranges@[j as int] == field.range);
                assert(ranges@.contains(field.range));
            }
        }
        i = i + 1;
    }
    assert(s.take(i as int) =~= s);
    ranges
}

/// Generate a parsing `rd`, `rs1`, `rs2`, `imm` function: a binding of the
/// bits of each distinct range of the field `reg_type`, then a match with
/// the field of each instruction (none where it has no such field).
pub fn generically_generate_parsing_reg_func(
    file: &mut String,
    reg_type: &str,
    ext_name: &str,
    insns: &Vec<Instruction>,
)
    ensures
        final(file)@ == old(file)@ + spec_parsing_reg_func(reg_type@, ext_name@, views(insns@)),
{
    let ghost s = views(insns@);
    let ghost before = file@;
    file.append("/// Parsing ");
    file.append(ext_name);
    file.append(" instruction's ");
    file.append(reg_type);
    file.append("\npub fn parse_");
    file.append(reg_type);
    file.append("(inst: u32, opkind: &");
    file.append(ext_name);
    file.append("Opcode) -> Option<usize> {\n");

    let reg_field_set = collect_reg_ranges(insns, reg_type);
    let ghost rs = reg_field_set@;
    let ghost start = file@;
    proof {
        lemma_concat_all_full(rs, reg_binding(reg_type@));
    }
    let mut k: usize = 0;
    while k < reg_field_set.len()
        invariant
            k <= rs.len(),
            rs == reg_field_set@,
            file@ == start + concat_all(rs.take(k as int), reg_binding(reg_type@)),
        decreases rs.len() - k,
    {
        proof {
            lemma_concat_all_step(rs, reg_binding(reg_type@), k as int);
        }
        push_reg_binding(file, reg_type, &reg_field_set[k]);
        k = k + 1;
        assert(file@ =~= start + concat_all(rs.take(k as int), reg_binding(reg_type@)));
    }
    file.append("\tmatch opkind {\n");

    let ghost start = file@;
    proof {
        lemma_concat_all_full(s, reg_arm(ext_name@, reg_type@));
    }
    let mut i: usize = 0;
    while i < insns.len()
        invariant
            i <= insns@.len(),
            s == views(insns@),
            file@ == start + concat_all(s.take(i as int), reg_arm(ext_name@, reg_type@)),
        decreases insns@.len() - i,
    {
        proof {
            lemma_concat_all_step(s, reg_arm(ext_name@, reg_type@), i as int);
        }
        push_reg_arm(file, ext_name, reg_type, &insns[i]);
        i = i + 1;
        assert(file@ =~= start + concat_all(s.take(i as int), reg_arm(ext_name@, reg_type@)));
    }
    file.append("    }\n}\n\n");
    assert(file@ =~= before + spec_parsing_reg_func(reg_type@, ext_name@, views(insns@)));
}

/// `Range::len` of a bit range: its end less its start, or zero.
pub open spec fn range_len(r: Range<u8>) -> nat {
    if r.start < r.end {
        (r.end - r.start) as nat
    } else {
        0
    }
}

/// `Range::len` of a bit range.
fn range_len_of(r: &Range<u8>) -> (n: usize)
    ensures
        n == range_len(*r),
{
    if r.start < r.end {
        (r.end - r.start) as usize
    } else {
        0
    }
}

/// The pattern that matches a value over a field: the value in binary,
/// padded as `{:#0width$b}` pads it, or `_` for no value.
pub open spec fn key_pattern(k: Option<u32>, width: nat) -> Seq<char> {
    match k {
        Some(v) => spec_binary_alt(v as nat, width),
        None => "_"@,
    }
}

/// The values among `keys` whose group has `l` instructions, in order.
pub open spec fn keys_of_size(keys: Seq<Option<u32>>, s: Seq<InstructionView>, r: Range<u8>, l: nat) -> Seq<
    Option<u32>,
>
    decreases keys.len(),
{
    if keys.len() == 0 {
        Seq::empty()
    } else {
        let d = keys_of_size(keys.drop_last(), s, r, l);
        if with_key(s, r, keys.last()).len() == l {
            d.push(keys.last())
        } else {
            d
        }
    }
}

/// The values among `keys` ordered by the size of their group, from one up
/// to `upto`, and in their order among groups of the same size: the order
/// of a stable sort by size.
pub open spec fn keys_by_size(keys: Seq<Option<u32>>, s: Seq<InstructionView>, r: Range<u8>, upto: nat) -> Seq<
    Option<u32>,
>
    decreases upto,
{
    if upto == 0 {
        Seq::empty()
    } else {
        keys_by_size(keys, s, r, (upto - 1) as nat) + keys_of_size(keys, s, r, upto)
    }
}

/// All instructions share one value over `r`, and there are several of
/// them: the field does not tell them apart.
pub open spec fn is_skip_level(s: Seq<InstructionView>, r: Range<u8>) -> bool {
    distinct_keys(s, r).len() == 1 && with_key(s, r, distinct_keys(s, r)[0]).len() != 1
}

/// The fields from `idx` on tell the instructions apart: at each level there
/// is a field to look at.
pub open spec fn field_pattern_ok(s: Seq<InstructionView>, list: Seq<Range<u8>>, idx: int) -> bool
    decreases list.len() - idx,
{
    if 0 <= idx < list.len() {
        let r = list[idx];
        if is_skip_level(s, r) {
            field_pattern_ok(s, list, idx + 1)
        } else {
            forall|g: int|
                0 <= g < distinct_keys(s, r).len() ==> #[trigger] with_key(s, r, distinct_keys(s, r)[g]).len() == 1
                    || field_pattern_ok(with_key(s, r, distinct_keys(s, r)[g]), list, idx + 1)
        }
    } else {
        false
    }
}

/// The match over the field `list[idx]` that tells the instructions `s`
/// apart, with the fields after it for groups that share a value.
pub open spec fn spec_field_pattern(ext: Seq<char>, s: Seq<InstructionView>, list: Seq<Range<u8>>, idx: int) -> Seq<
    char,
>
    decreases list.len() - idx, 2int, 0int,
{
    if 0 <= idx < list.len() {
        let r = list[idx];
        let keys = distinct_keys(s, r);
        if is_skip_level(s, r) {
            spec_field_pattern(ext, s, list, idx + 1)
        } else {
            "match op_"@ + dec(r.end) + "_"@ + dec(r.start) + " {\n"@ + spec_arms(
                ext,
                s,
                list,
                idx,
                keys_by_size(keys, s, r, s.len()),
            ) + if keys.contains(None) {
                Seq::<char>::empty()
            } else {
                "_ => Err(DecodingError::InvalidOpcode),\n"@
            } + "}\n"@
        }
    } else {
        Seq::empty()
    }
}

/// The arms for the values `ks` of the field `list[idx]`, in order.
pub open spec fn spec_arms(
    ext: Seq<char>,
    s: Seq<InstructionView>,
    list: Seq<Range<u8>>,
    idx: int,
    ks: Seq<Option<u32>>,
) -> Seq<char>
    decreases list.len() - idx, 1int, ks.len(),
{
    if ks.len() == 0 || !(0 <= idx < list.len()) {
        Seq::empty()
    } else {
        spec_arms(ext, s, list, idx, ks.drop_last()) + spec_arm(ext, with_key(s, list[idx], ks.last()), list, idx)
    }
}

/// The arm for a group of instructions that share a value of the field
/// `list[idx]`: the instruction itself, or a match over the next fields.
pub open spec fn spec_arm(ext: Seq<char>, group: Seq<InstructionView>, list: Seq<Range<u8>>, idx: int) -> Seq<char>
    decreases list.len() - idx, 0int, 0int,
{
    if 0 <= idx < list.len() && group.len() > 0 {
        let r = list[idx];
        "\t\t"@ + key_pattern(opc_key(group[0], r), range_len(r)) + " => "@ + if group.len() == 1 {
            ext + "Opcode::"@ + opcode_variant(group[0]) + ",\n"@
        } else {
            spec_field_pattern(ext, group, list, idx + 1)
        }
    } else {
        Seq::empty()
    }
}

/// Appends the arm for a group of instructions that share a value of the
/// field `opc_field_list[opc_index]`.
fn push_field_arm(
    file: &mut String,
    ext_name: &str,
    group: &Vec<Instruction>,
    opc_field_list: &[Range<u8>],
    opc_index: usize,
)
    requires
        opc_index < opc_field_list@.len(),
        group@.len() > 0,
        group@.len() == 1 || field_pattern_ok(views(group@), opc_field_list@, opc_index + 1),
    ensures
        final(file)@ == old(file)@ + spec_arm(ext_name@, views(group@), opc_field_list@, opc_index as int),
    decreases opc_field_list@.len() - opc_index, 0int,
{
    let r = &opc_field_list[opc_index];
    let ghost before = file@;
    file.append("\t\t");
    match group[0].get_imm_value_by_range(r) {
        Some(opc_val) => {
            let width = range_len_of(r);
            let pattern = fmt_binary_alt(opc_val as u64, width);
            file.append(pattern.as_str());
        },
        None => {
            file.append("_");
        },
    }
    file.append(" => ");
    let ghost mid = file@;
    assert(mid == before + "\t\t"@ + key_pattern(opc_key(views(group@)[0], *r), range_len(*r)) + " => "@);
    if group.len() == 1 {
        let variant = opcode_variant_of(&group[0]);
        file.append(ext_name);
        file.append("Opcode::");
        file.append(variant.as_str());
        file.append(",\n");
    } else {
        generate_each_field_pattern(file, ext_name, group, opc_field_list, opc_index + 1);
    }
    assert(file@ =~= before + spec_arm(ext_name@, views(group@), opc_field_list@, opc_index as int));
}

/// Generate each field pattern by calling recursively: a match over the
/// field `opc_field_list[opc_index]` with one arm for each value of it, the
/// values of the smallest groups first; a group of instructions that share
/// a value is told apart by the next fields. A field that all instructions
/// share is skipped.
pub fn generate_each_field_pattern(
    file: &mut String,
    ext_name: &str,
    insns: &Vec<Instruction>,
    opc_field_list: &[Range<u8>],
    opc_index: usize,
)
    requires
        field_pattern_ok(views(insns@), opc_field_list@, opc_index as int),
    ensures
        final(file)@ == old(file)@ + spec_field_pattern(
            ext_name@,
            views(insns@),
            opc_field_list@,
            opc_index as int,
        ),
    decreases opc_field_list@.len() - opc_index, 1int,
{
    let ghost s = views(insns@);
    let ghost list = opc_field_list@;
    let opc_field_range = &opc_field_list[opc_index];
    let ghost r = *opc_field_range;
    let grouped_insns = group_by_opc_value(insns, opc_field_range);
    let ghost keys = distinct_keys(s, r);
    proof {
        lemma_groups_partition(s, r);
    }

    // skip this level if it is non leaf
    if grouped_insns.len() == 1 && grouped_insns[0].len() != 1 {
        assert(views(grouped_insns@[0]@).len() == grouped_insns@[0]@.len());
        generate_each_field_pattern(file, ext_name, insns, opc_field_list, opc_index + 1);
        return;
    }
    assert(!is_skip_level(s, r)) by {
        if keys.len() == 1 {
            assert(views(grouped_insns@[0]@).len() == grouped_insns@[0]@.len());
        }
    }
    let ghost before = file@;
    let end = fmt_decimal(opc_field_range.end as u64);
    let begin = fmt_decimal(opc_field_range.start as u64);
    file.append("match op_");
    file.append(end.as_str());
    file.append("_");
    file.append(begin.as_str());
    file.append(" {\n");
    let ghost start = file@;

    let n = insns.len();
    let mut l: usize = 0;
    while l < n
        invariant
            l <= n,
            n == s.len(),
            s == views(insns@),
            list == opc_field_list@,
            r == list[opc_index as int],
            opc_index < list.len(),
            keys == distinct_keys(s, r),
            grouped_insns@.len() == keys.len(),
            forall|g: int|
                0 <= g < grouped_insns@.len() ==> #[trigger] views(grouped_insns@[g]@) == with_key(s, r, keys[g]),
            field_pattern_ok(s, list, opc_index as int),
            !is_skip_level(s, r),
            forall|g: int| 0 <= g < keys.len() ==> #[trigger] with_key(s, r, keys[g]).len() > 0,
            file@ == start + spec_arms(ext_name@, s, list, opc_index as int, keys_by_size(keys, s, r, l as nat)),
        decreases n - l,
    {
        let size = l + 1;
        let mut g: usize = 0;
        while g < grouped_insns.len()
            invariant
                g <= grouped_insns@.len(),
                size == l + 1,
                l < n,
                s == views(insns@),
                list == opc_field_list@,
                r == list[opc_index as int],
                opc_index < list.len(),
                keys == distinct_keys(s, r),
                grouped_insns@.len() == keys.len(),
                forall|h: int|
                    0 <= h < grouped_insns@.len() ==> #[trigger] views(grouped_insns@[h]@) == with_key(s, r, keys[h]),
                field_pattern_ok(s, list, opc_index as int),
                !is_skip_level(s, r),
                forall|h: int| 0 <= h < keys.len() ==> #[trigger] with_key(s, r, keys[h]).len() > 0,
                file@ == start + spec_arms(
                    ext_name@,
                    s,
                    list,
                    opc_index as int,
                    keys_by_size(keys, s, r, l as nat) + keys_of_size(keys.take(g as int), s, r, size as nat),
                ),
            decreases grouped_insns@.len() - g,
        {
            let ghost prefix = keys_by_size(keys, s, r, l as nat) + keys_of_size(keys.take(g as int), s, r, size as nat);
            assert(keys.take(g + 1).drop_last() =~= keys.take(g as int));
            assert(keys.take(g + 1).last() == keys[g as int]);
            assert(views(grouped_insns@[g as int]@).len() == grouped_insns@[g as int]@.len());
            if grouped_insns[g].len() == size {
                let ghost k = keys[g as int];
                assert(with_key(s, r, k).len() == 1 || field_pattern_ok(with_key(s, r, k), list, opc_index + 1));
                push_field_arm(file, ext_name, &grouped_insns[g], opc_field_list, opc_index);
                let ghost next = keys_by_size(keys, s, r, l as nat) + keys_of_size(keys.take(g + 1), s, r, size as nat);
                assert(next =~= prefix.push(k));
                assert(next.drop_last() =~= prefix);
            } else {
                assert(keys_by_size(keys, s, r, l as nat) + keys_of_size(keys.take(g + 1), s, r, size as nat)
                    =~= prefix);
            }
            g = g + 1;
        }
        assert(keys.take(g as int) =~= keys);
        l = l + 1;
    }

    // the wildcard arm is needed unless some group has no value
    let mut has_none = false;
    let mut g: usize = 0;
    while g < grouped_insns.len()
        invariant
            g <= grouped_insns@.len(),
            grouped_insns@.len() == keys.len(),
            forall|h: int|
                0 <= h < grouped_insns@.len() ==> #[trigger] views(grouped_insns@[h]@) == with_key(s, r, keys[h]),
            forall|h: int| 0 <= h < keys.len() ==> #[trigger] with_key(s, r, keys[h]).len() > 0,
            forall|h: int, m: int|
                0 <= h < keys.len() && 0 <= m < with_key(s, r, keys[h]).len() ==> opc_key(
                    #[trigger] with_key(s, r, keys[h])[m],
                    r,
                ) == keys[h],
            has_none == keys.take(g as int).contains(None),
            r == *opc_field_range,
        decreases grouped_insns@.len() - g,
    {
        assert(views(grouped_insns@[g as int]@)[0] == grouped_insns@[g as int]@[0]@);
        assert(opc_key(with_key(s, r, keys[g as int])[0], r) == keys[g as int]);
        let key = grouped_insns[g][0].get_imm_value_by_range(opc_field_range);
        assert(keys.take(g + 1) =~= keys.take(g as int).push(keys[g as int]));
        assert(key == keys[g as int]);
        let ghost t = keys.take(g as int);
        let ghost t1 = keys.take(g + 1);
        proof {
            assert forall|m: int| 0 <= m < t.len() implies t1[m] == t[m] by {}
            if t.contains(None) {
                let m = choose|m: int| 0 <= m < t.len() && t[m] == None::<u32>;
                assert(t1[m] == None::<u32>);
            }
            if t1.contains(None) && !t.contains(None) {
                let m = choose|m: int| 0 <= m < t1.len() && t1[m] == None::<u32>;
                if m < g {
                    assert(t[m] == None::<u32>);
                }
                assert(keys[g as int] == None::<u32>);
            }
        }
        if key.is_none() {
            assert(t1[g as int] == None::<u32>);
            has_none = true;
        }
        g = g + 1;
    }
    assert(keys.take(g as int) =~= keys);
    if !has_none {
        file.append("_ => Err(DecodingError::InvalidOpcode),\n");
    }
    file.append("}\n");
    assert(file@ =~= before + spec_field_pattern(ext_name@, s, list, opc_index as int));
}

/// The bit ranges of the immediates of an instruction, in order.
pub open spec fn imm_ranges(insn: InstructionView) -> Seq<Range<u8>> {
    spec_imm_fields(insn.operands).map_values(|i: Immediate| i.range)
}

/// The bit ranges of the immediates of all instructions.
pub open spec fn all_imm_ranges(s: Seq<InstructionView>) -> Seq<Range<u8>>
    decreases s.len(),
{
    if s.len() == 0 {
        Seq::empty()
    } else {
        all_imm_ranges(s.drop_last()) + imm_ranges(s.last())
    }
}

/// The order of the opcode fields: by lowest bit, and the wider field first
/// where two start at the same bit.
pub open spec fn range_before(a: Range<u8>, b: Range<u8>) -> bool {
    a.start < b.start || (a.start == b.start && a.end > b.end)
}

/// Every field comes before the fields after it.
pub open spec fn sorted_ranges(l: Seq<Range<u8>>) -> bool {
    forall|i: int, j: int| 0 <= i < j < l.len() ==> range_before(#[trigger] l[i], #[trigger] l[j])
}

/// `l` lists each immediate range of the instructions once, in order.
pub open spec fn is_opc_field_list(l: Seq<Range<u8>>, s: Seq<InstructionView>) -> bool {
    &&& sorted_ranges(l)
    &&& forall|x: Range<u8>| l.contains(x) <==> all_imm_ranges(s).contains(x)
}

/// The opcode fields of the instructions: each immediate range once, in order.
pub open spec fn spec_opc_field_list(s: Seq<InstructionView>) -> Seq<Range<u8>> {
    choose|l: Seq<Range<u8>>| is_opc_field_list(l, s)
}

/// Two ordered lists of the same fields are the same list: the opcode field
/// list of a set of instructions is determined by them.
pub proof fn lemma_sorted_ranges_unique(a: Seq<Range<u8>>, b: Seq<Range<u8>>)
    requires
        sorted_ranges(a),
        sorted_ranges(b),
        forall|x: Range<u8>| a.contains(x) <==> b.contains(x),
    ensures
        a == b,
    decreases a.len(),
{
    if a.len() == 0 {
        if b.len() > 0 {
            assert(b.contains(b[0]));
        }
        assert(a =~= b);
    } else {
        assert(a.contains(a[0]));
        assert(b.contains(a[0]));
        assert(b.len() > 0);
        assert(b.contains(b[0]));
        assert(a.contains(b[0]));
        let j = choose|j: int| 0 <= j < b.len() && b[j] == a[0];
        let i = choose|i: int| 0 <= i < a.len() && a[i] == b[0];
        if a[0] != b[0] {
            assert(j > 0 && i > 0);
            assert(range_before(b[0], b[j]));
            assert(range_before(a[0], a[i]));
            assert(false);
        }
        let a1 = a.drop_first();
        let b1 = b.drop_first();
        assert forall|x: Range<u8>| a1.contains(x) <==> b1.contains(x) by {
            if a1.contains(x) {
                let k = choose|k: int| 0 <= k < a1.len() && a1[k] == x;
                assert(a[k + 1] == x);
                assert(range_before(a[0], a[k + 1]));
                assert(a.contains(x));
                assert(b.contains(x));
                let m = choose|m: int| 0 <= m < b.len() && b[m] == x;
                if m == 0 {
                    assert(false);
                }
                assert(b1[m - 1] == x);
            }
            if b1.contains(x) {
                let k = choose|k: int| 0 <= k < b1.len() && b1[k] == x;
                assert(b[k + 1] == x);
                assert(range_before(b[0], b[k + 1]));
                assert(b.contains(x));
                assert(a.contains(x));
                let m = choose|m: int| 0 <= m < a.len() && a[m] == x;
                if m == 0 {
                    assert(false);
                }
                assert(a1[m - 1] == x);
            }
        }
        lemma_sorted_ranges_unique(a1, b1);
        assert(a =~= b) by {
            assert forall|k: int| 0 <= k < a.len() implies a[k] == b[k] by {
                if k > 0 {
                    assert(a[k] == a1[k - 1]);
                    assert(b[k] == b1[k - 1]);
                }
            }
        }
    }
}

/// A sequence followed by another holds what either holds.
proof fn lemma_contains_add(a: Seq<Range<u8>>, b: Seq<Range<u8>>, x: Range<u8>)
    ensures
        (a + b).contains(x) <==> (a.contains(x) || b.contains(x)),
{
    if a.contains(x) {
        let k = choose|k: int| 0 <= k < a.len() && a[k] == x;
        assert((a + b)[k] == x);
    }
    if b.contains(x) {
        let k = choose|k: int| 0 <= k < b.len() && b[k] == x;
        assert((a + b)[a.len() + k] == x);
    }
    if (a + b).contains(x) {
        let k = choose|k: int| 0 <= k < (a + b).len() && (a + b)[k] == x;
        if k < a.len() {
            assert(a[k] == x);
        } else {
            assert(b[k - a.len()] == x);
        }
    }
}

/// Inserts a field into an ordered list of fields unless it is there.
///
/// The ordered `Vec` with no field twice stands for the set of fields and its
/// sorting at once: vstd's hash set specification covers elements of its key
/// model only (integers and booleans), not `Range`s.
fn insert_range(list: &mut Vec<Range<u8>>, x: &Range<u8>)
    requires
        sorted_ranges(old(list)@),
    ensures
        sorted_ranges(final(list)@),
        forall|y: Range<u8>| #[trigger] final(list)@.contains(y) <==> (old(list)@.contains(y) || y == *x),
{
    let mut pos: usize = 0;
    while pos < list.len() && (list[pos].start < x.start || (list[pos].start == x.start && list[pos].end > x.end))
        invariant
            pos <= list@.len(),
            list@ == old(list)@,
            forall|k: int| 0 <= k < pos ==> range_before(#[trigger] list@[k], *x),
        decreases list@.len() - pos,
    {
        pos = pos + 1;
    }
    if pos < list.len() && same_range(&list[pos], x) {
        assert(list@[pos as int] == *x);
        assert(list@.contains(*x));
        return;
    }
    let ghost old_list = list@;
    list.insert(pos, copy_range(x));
    assert forall|i: int, j: int| 0 <= i < j < list@.len() implies range_before(
        #[trigger] list@[i],
        #[trigger] list@[j],
    ) by {
        if j < pos {
            assert(list@[i] == old_list[i] && list@[j] == old_list[j]);
        } else if j == pos {
            assert(list@[i] == old_list[i]);
        } else if i == pos {
            assert(list@[j] == old_list[j - 1]);
            assert(range_before(*x, old_list[pos as int]));
        } else if i < pos {
            assert(list@[i] == old_list[i] && list@[j] == old_list[j - 1]);
        } else {
            assert(list@[i] == old_list[i - 1] && list@[j] == old_list[j - 1]);
        }
    }
    assert forall|y: Range<u8>| #[trigger] list@.contains(y) <==> (old_list.contains(y) || y == *x) by {
        if old_list.contains(y) {
            let k = choose|k: int| 0 <= k < old_list.len() && old_list[k] == y;
            if k < pos {
                assert(list@[k] == y);
            } else {
                assert(list@[k + 1] == y);
            }
        }
        if y == *x {
            assert(list@[pos as int] == y);
        }
        if list@.contains(y) {
            let k = choose|k: int| 0 <= k < list@.len() && list@[k] == y;
            if k < pos {
                assert(old_list[k] == y);
            } else if k > pos {
                assert(old_list[k - 1] == y);
            }
        }
    }
}

/// The opcode fields of the instructions: each immediate range once, in order.
fn collect_opc_fields(insns: &Vec<Instruction>) -> (r: Vec<Range<u8>>)
    ensures
        r@ == spec_opc_field_list(views(insns@)),
{
    let ghost s = views(insns@);
    let mut list: Vec<Range<u8>> = Vec::new();
    let mut i: usize = 0;
    assert(s.take(0) =~= Seq::<InstructionView>::empty());
    while i < insns.len()
        invariant
            i <= insns@.len(),
            s == views(insns@),
            sorted_ranges(list@),
            forall|y: Range<u8>| #[trigger] list@.contains(y) <==> all_imm_ranges(s.take(i as int)).contains(y),
        decreases insns@.len() - i,
    {
        let ghost prev = all_imm_ranges(s.take(i as int));
        let imms = insns[i].get_imm_fields();
        let ghost here = imm_ranges(s[i as int]);
        assert(here.len() == imms@.len());
        let mut j: usize = 0;
        while j < imms.len()
            invariant
                j <= imms@.len(),
                here.len() == imms@.len(),
                forall|k: int| 0 <= k < imms@.len() ==> here[k] == (*imms@[k]).range,
                sorted_ranges(list@),
                forall|y: Range<u8>| #[trigger] list@.contains(y) <==> (prev.contains(y) || here.take(j as int).contains(y)),
            decreases imms@.len() - j,
        {
            let ghost before = list@;
            insert_range(&mut list, &imms[j].range);
            assert(here[j as int] == (*imms@[j as int]).range);
            assert forall|y: Range<u8>| list@.contains(y) <==> (prev.contains(y) || here.take(j + 1).contains(y)) by {
                assert(list@.contains(y) <==> (before.contains(y) || y == here[j as int]));
                assert(before.contains(y) <==> (prev.contains(y) || here.take(j as int).contains(y)));
                assert(here.take(j + 1) =~= here.take(j as int) + seq![here[j as int]]);
                lemma_contains_add(here.take(j as int), seq![here[j as int]], y);
                assert(seq![here[j as int]].contains(y) <==> y == here[j as int]) by {
                    if y == here[j as int] {
                        assert(seq![here[j as int]][0] == y);
                    }
                }
            }
            j = j + 1;
        }
        assert(here.take(j as int) =~= here);
        assert(s.take(i + 1).drop_last() =~= s.take(i as int));
        assert(s.take(i + 1).last() == s[i as int]);
        assert forall|y: Range<u8>| list@.contains(y) <==> all_imm_ranges(s.take(i + 1)).contains(y) by {
            lemma_contains_add(prev, here, y);
        }
        i = i + 1;
    }
    assert(s.take(i as int) =~= s);
    assert(is_opc_field_list(list@, s));
    proof {
        let c = spec_opc_field_list(s);
        assert(is_opc_field_list(c, s));
        lemma_sorted_ranges_unique(list@, c);
    }
    list
}

/// The type that holds the bits of an opcode field.
pub open spec fn field_type(r: Range<u8>) -> Seq<char> {
    if range_len(r) <= 8 {
        "u8"@
    } else {
        "u16"@
    }
}

/// The binding of an opcode field's bits.
pub open spec fn op_binding() -> spec_fn(Range<u8>) -> Seq<char> {
    |r: Range<u8>|
        "let op_"@ + dec(r.end) + "_"@ + dec(r.start) + ": "@ + field_type(r) + " = "@ + field_type(r)
            + "::try_from(inst.slice("@ + dec(r.end) + ", "@ + dec(r.start) + ")).unwrap(); \n"@
}

/// The opcode parsing function of the instructions `s` of `ext`.
pub open spec fn spec_parsing_opcode_func(ext: Seq<char>, s: Seq<InstructionView>) -> Seq<char> {
    "pub fn parse_opcode(inst: u32) -> Result<"@ + ext + "Opcode, DecodingError> {\n"@ + concat_all(
        spec_opc_field_list(s),
        op_binding(),
    ) + spec_field_pattern(ext, s, spec_opc_field_list(s), 0) + "}\n\n"@
}

/// Appends the binding of an opcode field's bits.
fn push_op_binding(file: &mut String, r: &Range<u8>)
    ensures
        final(file)@ == old(file)@ + op_binding()(*r),
{
    let end = fmt_decimal(r.end as u64);
    let begin = fmt_decimal(r.start as u64);
    let typ = if range_len_of(r) <= 8 {
        "u8"
    } else {
        "u16"
    };
    file.append("let op_");
    file.append(end.as_str());
    file.append("_");
    file.append(begin.as_str());
    file.append(": ");
    file.append(typ);
    file.append(" = ");
    file.append(typ);
    file.append("::try_from(inst.slice(");
    file.append(end.as_str());
    file.append(", ");
    file.append(begin.as_str());
    file.append(")).unwrap(); \n");
    assert(file@ =~= old(file)@ + op_binding()(*r));
}

/// Generate operand parsing function: a binding of each opcode field's
/// bits, in order, then the match that tells the instructions apart.
pub fn generate_parsing_opecode_func(file: &mut String, ext_name: &str, insns: &Vec<Instruction>)
    requires
        field_pattern_ok(views(insns@), spec_opc_field_list(views(insns@)), 0),
    ensures
        final(file)@ == old(file)@ + spec_parsing_opcode_func(ext_name@, views(insns@)),
{
    let ghost before = file@;
    let opc_field_list = collect_opc_fields(insns);
    let ghost l = opc_field_list@;
    file.append("pub fn parse_opcode(inst: u32) -> Result<");
    file.append(ext_name);
    file.append("Opcode, DecodingError> {\n");
    let ghost start = file@;
    proof {
        lemma_concat_all_full(l, op_binding());
    }
    let mut k: usize = 0;
    while k < opc_field_list.len()
        invariant
            k <= l.len(),
            l == opc_field_list@,
            file@ == start + concat_all(l.take(k as int), op_binding()),
        decreases l.len() - k,
    {
        proof {
            lemma_concat_all_step(l, op_binding(), k as int);
        }
        push_op_binding(file, &opc_field_list[k]);
        k = k + 1;
        assert(file@ =~= start + concat_all(l.take(k as int), op_binding()));
    }
    generate_each_field_pattern(file, ext_name, insns, opc_field_list.as_slice(), 0);
    file.append("}\n\n");
    assert(file@ =~= before + spec_parsing_opcode_func(ext_name@, views(insns@)));
}

/// An optional register number as `{:?}` writes it.
pub open spec fn opt_text(o: Option<usize>) -> Seq<char> {
    spec_option_debug(
        match o {
            Some(v) => Some(v as int),
            None => None,
        },
    )
}

/// The test case of an instruction built from the random word `raw`.
pub open spec fn spec_unit_case(ext: Seq<char>, insn: InstructionView, raw: u32) -> Seq<char> {
    let (v, rd, rs1, rs2, imm) = spec_random_insn_value(insn, raw);
    "test_32(\n    "@ + spec_binary_alt(v as nat, 32) + ",\n    OpcodeKind::"@ + ext + "("@ + ext + "Opcode::"@
        + opcode_variant(insn) + "),\n    "@ + opt_text(rd) + ",\n    "@ + opt_text(rs1) + ",\n    "@ + opt_text(rs2)
        + ",\n    "@ + spec_option_debug(
        match imm {
            Some(v) => Some(v as int),
            None => None,
        },
    ) + ",\n);\n"@
}

/// The test cases of the instructions `s`, each built from its random word.
pub open spec fn spec_unit_cases(ext: Seq<char>, s: Seq<InstructionView>, raws: Seq<u32>) -> Seq<char>
    decreases s.len(),
{
    if s.len() == 0 || raws.len() == 0 {
        Seq::empty()
    } else {
        spec_unit_cases(ext, s.drop_last(), raws.drop_last()) + spec_unit_case(ext, s.last(), raws.last())
    }
}

/// The unit test module of the decoder of `ext`.
pub open spec fn spec_unit_tests(ext: Seq<char>, s: Seq<InstructionView>, raws: Seq<u32>) -> Seq<char> {
    let lower = lower_text(ext);
    "#[cfg(test)]\n#[allow(unused_variables)]\nmod test_"@ + lower
        + " {\n    #[test]\n    #[allow(overflowing_literals)]\n    fn "@ + lower
        + "_32bit_decode_test() {\n        use super::*;\n        use crate::{Decode, Isa, OpcodeKind};\n\n        let test_32 = |inst_32: u32,\n                       expected_op: OpcodeKind,\n                       expected_rd: Option<usize>,\n                       expected_rs1: Option<usize>,\n                       expected_rs2: Option<usize>,\n                       expected_imm: Option<i32>| {\n            let op_32 = inst_32.parse_opcode(Isa::Rv64).unwrap();\n            assert_eq!(op_32, expected_op);\n            assert_eq!(inst_32.parse_rd(&op_32).unwrap(), expected_rd);\n            assert_eq!(inst_32.parse_rs1(&op_32).unwrap(), expected_rs1);\n            assert_eq!(inst_32.parse_rs2(&op_32).unwrap(), expected_rs2);\n            assert_eq!(inst_32.parse_imm(&op_32, Isa::Rv64).unwrap(), expected_imm);\n        };\n"@
        + spec_unit_cases(ext, s, raws) + "    }\n}\n"@
}

/// An optional register number as `{:?}` writes it.
fn push_opt(file: &mut String, o: Option<usize>)
    requires
        o matches Some(v) ==> v <= u32::MAX,
    ensures
        final(file)@ == old(file)@ + opt_text(o),
{
    let t = match o {
        Some(v) => fmt_option_debug(Some(v as i64)),
        None => fmt_option_debug(None),
    };
    file.append(t.as_str());
}

/// Appends the test case of an instruction built from the random word `raw`.
#[verifier::spinoff_prover]
#[verifier::rlimit(40)]
fn push_unit_case(file: &mut String, ext_name: &str, insn: &Instruction, raw: u32)
    requires
        ranges_in_word(insn@.operands),
    ensures
        final(file)@ == old(file)@ + spec_unit_case(ext_name@, insn@, raw),
{
    let (insn_val, rd, rs1, rs2, imm) = insn.get_random_insn_value(raw);
    let value = fmt_binary_alt(insn_val as u64, 32);
    let variant = opcode_variant_of(insn);
    let ghost before = file@;
    file.append("test_32(\n    ");
    file.append(value.as_str());
    file.append(",\n    OpcodeKind::");
    file.append(ext_name);
    file.append("(");
    file.append(ext_name);
    file.append("Opcode::");
    file.append(variant.as_str());
    file.append("),\n    ");
    push_opt(file, rd);
    file.append(",\n    ");
    push_opt(file, rs1);
    file.append(",\n    ");
    push_opt(file, rs2);
    file.append(",\n    ");
    let imm_text = match imm {
        Some(v) => fmt_option_debug(Some(v as i64)),
        None => fmt_option_debug(None),
    };
    file.append(imm_text.as_str());
    file.append(",\n);\n");
    assert(file@ =~= before + spec_unit_case(ext_name@, insn@, raw));
}

/// Generate unit tests for decoder: a test case for each instruction, built
/// from its random word in `raws`.
pub fn generate_unit_tests(file: &mut String, ext_name: &str, insns: &Vec<Instruction>, raws: &Vec<u32>)
    requires
        raws@.len() == insns@.len(),
        forall|i: int| 0 <= i < insns@.len() ==> ranges_in_word(#[trigger] insns@[i].operands@),
    ensures
        final(file)@ == old(file)@ + spec_unit_tests(ext_name@, views(insns@), raws@),
{
    let ghost s = views(insns@);
    let ghost before = file@;
    let lower = to_lowercase(ext_name);
    file.append("#[cfg(test)]\n#[allow(unused_variables)]\nmod test_");
    file.append(lower.as_str());
    file.append(" {\n    #[test]\n    #[allow(overflowing_literals)]\n    fn ");
    file.append(lower.as_str());
    file.append(
        "_32bit_decode_test() {\n        use super::*;\n        use crate::{Decode, Isa, OpcodeKind};\n\n        let test_32 = |inst_32: u32,\n                       expected_op: OpcodeKind,\n                       expected_rd: Option<usize>,\n                       expected_rs1: Option<usize>,\n                       expected_rs2: Option<usize>,\n                       expected_imm: Option<i32>| {\n            let op_32 = inst_32.parse_opcode(Isa::Rv64).unwrap();\n            assert_eq!(op_32, expected_op);\n            assert_eq!(inst_32.parse_rd(&op_32).unwrap(), expected_rd);\n            assert_eq!(inst_32.parse_rs1(&op_32).unwrap(), expected_rs1);\n            assert_eq!(inst_32.parse_rs2(&op_32).unwrap(), expected_rs2);\n            assert_eq!(inst_32.parse_imm(&op_32, Isa::Rv64).unwrap(), expected_imm);\n        };\n",
    );
    let ghost start = file@;
    let mut i: usize = 0;
    assert(s.take(0) =~= Seq::<InstructionView>::empty());
    while i < insns.len()
        invariant
            i <= insns@.len(),
            raws@.len() == insns@.len(),
            s == views(insns@),
            forall|k: int| 0 <= k < insns@.len() ==> ranges_in_word(#[trigger] insns@[k].operands@),
            file@ == start + spec_unit_cases(ext_name@, s.take(i as int), raws@.take(i as int)),
        decreases insns@.len() - i,
    {
        assert(s.take(i + 1).drop_last() =~= s.take(i as int));
        assert(raws@.take(i + 1).drop_last() =~= raws@.take(i as int));
        assert(s.take(i + 1).last() == insns@[i as int]@);
        push_unit_case(file, ext_name, &insns[i], raws[i]);
        i = i + 1;
        assert(file@ =~= start + spec_unit_cases(ext_name@, s.take(i as int), raws@.take(i as int)));
    }
    assert(s.take(i as int) =~= s);
    assert(raws@.take(i as int) =~= raws@);
    file.append("    }\n}\n");
    assert(file@ =~= before + spec_unit_tests(ext_name@, views(insns@), raws@));
}

/// The decoder module of the extension `ext` for the instructions `s`.
pub open spec fn spec_raki_decoder(ext: Seq<char>, s: Seq<InstructionView>, raws: Seq<u32>) -> Seq<char> {
    "//! "@ + ext
        + " extension decoder\n\nuse super::super::{DecodeUtil, DecodingError};\nuse crate::instruction::"@
        + lower_text(ext) + "_extension::"@ + ext + "Opcode;\n\n"@ + spec_parsing_opcode_func(ext, s) + spec_parsing_reg_func("rd"@, ext, s) + spec_parsing_reg_func(
        "rs1"@,
        ext,
        s,
    ) + spec_parsing_reg_func("rs2"@, ext, s) + spec_parsing_reg_func("imm"@, ext, s) + spec_unit_tests(
        ext,
        s,
        raws,
    )
}

/// Generate operand parser: the text of the decoder module of the extension
/// `ext_name`, with unit tests built from the random words `raws`, one for
/// each instruction.
pub fn create_raki_decoder(ext_name: &str, insns: &Vec<Instruction>, raws: &Vec<u32>) -> (r: String)
    requires
        field_pattern_ok(views(insns@), spec_opc_field_list(views(insns@)), 0),
        raws@.len() == insns@.len(),
        forall|i: int| 0 <= i < insns@.len() ==> ranges_in_word(#[trigger] insns@[i].operands@),
    ensures
        r@ == spec_raki_decoder(ext_name@, views(insns@), raws@),
{
    let mut file = String::new();

    // Document of a module and import statements.
    file.append("//! ");
    file.append(ext_name);
    file.append(" extension decoder\n\nuse super::super::{DecodeUtil, DecodingError};\nuse crate::instruction::");
    let lower = to_lowercase(ext_name);
    file.append(lower.as_str());
    file.append("_extension::");
    file.append(ext_name);
    file.append("Opcode;\n\n");

    generate_parsing_opecode_func(&mut file, ext_name, insns);

    generically_generate_parsing_reg_func(&mut file, "rd", ext_name, insns);
    generically_generate_parsing_reg_func(&mut file, "rs1", ext_name, insns);
    generically_generate_parsing_reg_func(&mut file, "rs2", ext_name, insns);
    generically_generate_parsing_reg_func(&mut file, "imm", ext_name, insns);

    generate_unit_tests(&mut file, ext_name, insns, raws);
    assert(file@ =~= spec_raki_decoder(ext_name@, views(insns@), raws@));
    file
}

/// Whether the fields from `opc_index` on tell the instructions apart.
pub fn field_pattern_check(insns: &Vec<Instruction>, opc_field_list: &[Range<u8>], opc_index: usize) -> (r: bool)
    ensures
        r == field_pattern_ok(views(insns@), opc_field_list@, opc_index as int),
    decreases opc_field_list@.len() - opc_index,
{
    if opc_index >= opc_field_list.len() {
        return false;
    }
    let ghost s = views(insns@);
    let ghost r = opc_field_list@[opc_index as int];
    let grouped_insns = group_by_opc_value(insns, &opc_field_list[opc_index]);
    let ghost keys = distinct_keys(s, r);
    if grouped_insns.len() == 1 && grouped_insns[0].len() != 1 {
        assert(views(grouped_insns@[0]@).len() == grouped_insns@[0]@.len());
        return field_pattern_check(insns, opc_field_list, opc_index + 1);
    }
    assert(!is_skip_level(s, r)) by {
        if keys.len() == 1 {
            assert(views(grouped_insns@[0]@).len() == grouped_insns@[0]@.len());
        }
    }
    let mut g: usize = 0;
    while g < grouped_insns.len()
        invariant
            g <= grouped_insns@.len(),
            opc_index < opc_field_list.len(),
            s == views(insns@),
            r == opc_field_list@[opc_index as int],
            keys == distinct_keys(s, r),
            !is_skip_level(s, r),
            grouped_insns@.len() == keys.len(),
            forall|h: int|
                0 <= h < grouped_insns@.len() ==> #[trigger] views(grouped_insns@[h]@) == with_key(s, r, keys[h]),
            forall|h: int|
                0 <= h < g ==> #[trigger] with_key(s, r, keys[h]).len() == 1 || field_pattern_ok(
                    with_key(s, r, keys[h]),
                    opc_field_list@,
                    opc_index + 1,
                ),
        decreases grouped_insns@.len() - g,
    {
        assert(views(grouped_insns@[g as int]@).len() == grouped_insns@[g as int]@.len());
        if grouped_insns[g].len() != 1 && !field_pattern_check(&grouped_insns[g], opc_field_list, opc_index + 1) {
            assert(!(with_key(s, r, keys[g as int]).len() == 1 || field_pattern_ok(
                with_key(s, r, keys[g as int]),
                opc_field_list@,
                opc_index + 1,
            )));
            return false;
        }
        g = g + 1;
    }
    true
}

/// Whether the decoder module can be generated for the instructions with
/// the random words `raws`: their opcode fields tell them apart, there is a
/// word for each, and their fields lie within a 32-bit word.
pub fn check_raki_decoder_input(insns: &Vec<Instruction>, raws: &Vec<u32>) -> (r: bool)
    ensures
        r == (field_pattern_ok(views(insns@), spec_opc_field_list(views(insns@)), 0) && raws@.len()
            == insns@.len() && forall|i: int|
            0 <= i < insns@.len() ==> ranges_in_word(#[trigger] insns@[i].operands@)),
{
    if raws.len() != insns.len() {
        return false;
    }
    let mut i: usize = 0;
    while i < insns.len()
        invariant
            i <= insns@.len(),
            forall|k: int| 0 <= k < i ==> ranges_in_word(#[trigger] insns@[k].operands@),
        decreases insns@.len() - i,
    {
        let ops = &insns[i].operands;
        let mut j: usize = 0;
        while j < ops.len()
            invariant
                j <= ops@.len(),
                i < insns@.len(),
                *ops == insns@[i as int].operands,
                forall|m: int|
                    0 <= m < j ==> op_range(#[trigger] ops@[m]).start <= op_range(ops@[m]).end < 32,
            decreases ops@.len() - j,
        {
            let r = match &ops[j] {
                Operand::Imm(imm) => &imm.range,
                Operand::Named(n) => &n.range,
            };
            if !(r.start <= r.end && r.end < 32) {
                assert(op_range(ops@[j as int]) == *r);
                assert(!ranges_in_word(insns@[i as int].operands@));
                return false;
            }
            j = j + 1;
        }
        i = i + 1;
    }
    let opc_field_list = collect_opc_fields(insns);
    field_pattern_check(insns, opc_field_list.as_slice(), 0)
}

} // verus!
