//! Instruction encodings read from the `encdec` mapping of a Sail model.

use std::ops::Range;

use vstd::prelude::*;

use crate::ast_util::{
    ast_pred, check_defined_location, clauses_present_check, location_has_file_name, clauses_present_until, has_file_name, in_file,
    spec_enum_variants, spec_function_node, unwrap_ident, Ast,
};
use crate::sail_ast::{
    is_named, Definition, Expression, Identifier, Literal, NumericExpression, Pattern, PatternAux,
    PatternMatch, TypArg, Typ, TypeUnion,
};
use crate::search::{
    first_index, first_match, lemma_filter_map_as_filter, lemma_first_index, lemma_first_match_skip,
    lemma_first_match_some,
};
use crate::text::same_text;

verus! {

/// Operand data
#[derive(Debug)]
pub struct NamedOperand {
    /// Field name
    pub name: String,
    /// Bit map of the field: its lowest and its highest bit.
    pub range: Range<u8>,
}

/// Immediate data
#[derive(Debug)]
pub struct Immediate {
    /// Immediate value
    pub value: u32,
    /// Bit map of the field: its lowest and its highest bit.
    pub range: Range<u8>,
}

/// Bit field kind.
#[derive(Debug)]
pub enum Operand {
    /// Immediate value
    Imm(Immediate),
    /// Named field. (e.g. `rd`, `rs1`)
    Named(NamedOperand),
}

/// Instruction data
#[derive(Debug)]
pub struct Instruction {
    /// Instruction name.
    pub name: String,
    /// Group name (Name of `InstType`)
    pub group_name: Option<String>,
    /// List of operands.
    pub operands: Vec<Operand>,
}

/// What an instruction holds, with its operands as a sequence.
pub struct InstructionView {
    pub name: String,
    pub group_name: Option<String>,
    pub operands: Seq<Operand>,
}

impl View for Instruction {
    type V = InstructionView;

    open spec fn view(&self) -> InstructionView {
        InstructionView { name: self.name, group_name: self.group_name, operands: self.operands@ }
    }
}

/// The views of a list of instructions.
pub open spec fn views(s: Seq<Instruction>) -> Seq<InstructionView> {
    s.map_values(|i: Instruction| i@)
}

/// A copy of a bit range.
pub fn copy_range(range: &Range<u8>) -> (r: Range<u8>)
    ensures
        r == *range,
{
    Range { start: range.start, end: range.end }
}

impl Operand {
    /// A copy of the operand.
    pub fn copy(&self) -> (r: Operand)
        ensures
            r == *self,
    {
        match self {
            Operand::Imm(imm) => Operand::Imm(Immediate { value: imm.value, range: copy_range(&imm.range) }),
            Operand::Named(n) => Operand::Named(NamedOperand { name: n.name.clone(), range: copy_range(&n.range) }),
        }
    }
}

/// A named operand called `name`.
pub open spec fn is_named_operand(op: Operand, name: Seq<char>) -> bool {
    op matches Operand::Named(n) && n.name@ == name
}

/// An immediate over the bit range `range`.
pub open spec fn is_imm_at(op: Operand, range: Range<u8>) -> bool {
    op matches Operand::Imm(imm) && imm.range == range
}

/// The first named operand called `name`.
pub open spec fn spec_field_by_name(ops: Seq<Operand>, name: Seq<char>) -> Option<NamedOperand> {
    match first_match(ops, |op: Operand| is_named_operand(op, name)) {
        Some(Operand::Named(n)) => Some(n),
        _ => None,
    }
}

/// The value of the first immediate over the bit range `range`.
pub open spec fn spec_imm_value_by_range(ops: Seq<Operand>, range: Range<u8>) -> Option<u32> {
    match first_match(ops, |op: Operand| is_imm_at(op, range)) {
        Some(Operand::Imm(imm)) => Some(imm.value),
        _ => None,
    }
}

/// The immediates among `ops`, in order.
pub open spec fn spec_imm_fields(ops: Seq<Operand>) -> Seq<Immediate>
    decreases ops.len(),
{
    if ops.len() == 0 {
        Seq::empty()
    } else {
        let rest = spec_imm_fields(ops.drop_last());
        match ops.last() {
            Operand::Imm(imm) => rest.push(imm),
            Operand::Named(_) => rest,
        }
    }
}

/// The immediate that an operand contributes to the immediate fields: the
/// immediate itself, or nothing for a named field.
pub open spec fn imm_of(op: Operand) -> Seq<Immediate> {
    match op {
        Operand::Imm(imm) => seq![imm],
        Operand::Named(_) => Seq::empty(),
    }
}

/// The immediate fields of a nonempty list of operands are those of its
/// first operand followed by those of the rest.
proof fn lemma_imm_fields_first(ops: Seq<Operand>)
    requires
        ops.len() > 0,
    ensures
        spec_imm_fields(ops) == imm_of(ops[0]) + spec_imm_fields(ops.drop_first()),
    decreases ops.len(),
{
    if ops.len() == 1 {
        assert(ops.drop_last() =~= Seq::<Operand>::empty());
        assert(ops.drop_first() =~= Seq::<Operand>::empty());
        assert(spec_imm_fields(ops) =~= imm_of(ops[0]) + spec_imm_fields(ops.drop_first()));
    } else {
        lemma_imm_fields_first(ops.drop_last());
        assert(ops.drop_last().drop_first() =~= ops.drop_first().drop_last());
        assert(ops.drop_last()[0] == ops[0]);
        assert(ops.drop_first().last() == ops.last());
        assert(spec_imm_fields(ops) =~= imm_of(ops[0]) + spec_imm_fields(ops.drop_first()));
    }
}

/// The value that [`Instruction::get_imm_value_by_range`] gives for `range`
/// is that of the first of the immediate fields
/// ([`Instruction::get_imm_fields`]) whose range is `range`, and none where
/// no immediate field has that range.
pub proof fn lemma_imm_value_by_range_is_first_imm_field(ops: Seq<Operand>, range: Range<u8>)
    ensures
        spec_imm_value_by_range(ops, range) == match first_match(
            spec_imm_fields(ops),
            |imm: Immediate| imm.range == range,
        ) {
            Some(imm) => Some(imm.value),
            None => None,
        },
    decreases ops.len(),
{
    if ops.len() == 0 {
        assert(spec_imm_fields(ops) =~= Seq::<Immediate>::empty());
    } else {
        lemma_imm_fields_first(ops);
        let rest = spec_imm_fields(ops.drop_first());
        lemma_imm_value_by_range_is_first_imm_field(ops.drop_first(), range);
        match ops[0] {
            Operand::Imm(imm) => {
                assert((seq![imm] + rest)[0] == imm);
                if imm.range != range {
                    assert((seq![imm] + rest).drop_first() =~= rest);
                }
            },
            Operand::Named(_) => {
                assert(Seq::<Immediate>::empty() + rest =~= rest);
            },
        }
    }
}

impl Instruction {
    /// A copy of the instruction.
    pub fn copy(&self) -> (r: Instruction)
        ensures
            r@ == self@,
    {
        let mut operands: Vec<Operand> = Vec::new();
        let mut i: usize = 0;
        while i < self.operands.len()
            invariant
                i <= self.operands@.len(),
                operands@ == self.operands@.take(i as int),
            decreases self.operands@.len() - i,
        {
            operands.push(self.operands[i].copy());
            i = i + 1;
            assert(operands@ =~= self.operands@.take(i as int));
        }
        assert(operands@ =~= self.operands@);
        let group_name = match &self.group_name {
            Some(g) => Some(g.clone()),
            None => None,
        };
        Instruction { name: self.name.clone(), group_name, operands }
    }

    /// Get a field by name: the first named operand called `field_name`.
    pub fn get_field_by_name(&self, field_name: &str) -> (r: Option<&NamedOperand>)
        ensures
            match r {
                Some(n) => spec_field_by_name(self.operands@, field_name@) == Some(*n),
                None => spec_field_by_name(self.operands@, field_name@) is None,
            },
    {
        let ghost p = |op: Operand| is_named_operand(op, field_name@);
        let mut i: usize = 0;
        while i < self.operands.len()
            invariant
                i <= self.operands@.len(),
                p == (|op: Operand| is_named_operand(op, field_name@)),
                forall|j: int| 0 <= j < i ==> !is_named_operand(#[trigger] self.operands@[j], field_name@),
            decreases self.operands@.len() - i,
        {
            if let Operand::Named(n) = &self.operands[i] {
                if same_text(n.name.as_str(), field_name) {
                    proof {
                        lemma_first_match_skip(self.operands@, p, i as int);
                    }
                    return Some(n);
                }
            }
            i = i + 1;
        }
        proof {
            lemma_first_match_skip(self.operands@, p, i as int);
        }
        None
    }

    /// Get all immediate fields, in order.
    pub fn get_imm_fields(&self) -> (r: Vec<&Immediate>)
        ensures
            r@.len() == spec_imm_fields(self.operands@).len(),
            forall|k: int| 0 <= k < r@.len() ==> *r@[k] == spec_imm_fields(self.operands@)[k],
    {
        let mut r: Vec<&Immediate> = Vec::new();
        let mut i: usize = 0;
        while i < self.operands.len()
            invariant
                i <= self.operands@.len(),
                r@.len() == spec_imm_fields(self.operands@.take(i as int)).len(),
                forall|k: int|
                    0 <= k < r@.len() ==> *r@[k] == spec_imm_fields(self.operands@.take(i as int))[k],
            decreases self.operands@.len() - i,
        {
            assert(self.operands@.take(i + 1).drop_last() =~= self.operands@.take(i as int));
            if let Operand::Imm(imm) = &self.operands[i] {
                r.push(imm);
            }
            i = i + 1;
        }
        assert(self.operands@.take(i as int) =~= self.operands@);
        r
    }

    /// Get immediate value by range: the value of the first immediate over `range`.
    pub fn get_imm_value_by_range(&self, range: &Range<u8>) -> (r: Option<u32>)
        ensures
            r == spec_imm_value_by_range(self.operands@, *range),
    {
        let ghost p = |op: Operand| is_imm_at(op, *range);
        let mut i: usize = 0;
        while i < self.operands.len()
            invariant
                i <= self.operands@.len(),
                p == (|op: Operand| is_imm_at(op, *range)),
                forall|j: int| 0 <= j < i ==> !is_imm_at(#[trigger] self.operands@[j], *range),
            decreases self.operands@.len() - i,
        {
            if let Operand::Imm(imm) = &self.operands[i] {
                if imm.range.start == range.start && imm.range.end == range.end {
                    proof {
                        lemma_first_match_skip(self.operands@, p, i as int);
                    }
                    return Some(imm.value);
                }
            }
            i = i + 1;
        }
        proof {
            lemma_first_match_skip(self.operands@, p, i as int);
        }
        None
    }
}

/// A bit literal: `0` (written `Zero`) or `1` (written `True`).
pub open spec fn is_bit_literal(e: Expression) -> bool {
    e matches Expression::Literal(Literal::Zero) || e matches Expression::Literal(Literal::True)
}

/// The value of a bit literal.
pub open spec fn bit_of(e: Expression) -> nat {
    if e matches Expression::Literal(Literal::True) {
        1
    } else {
        0
    }
}

/// Every element of `s` is a bit literal.
pub open spec fn all_bit_literals(s: Seq<Expression>) -> bool {
    forall|i: int| 0 <= i < s.len() ==> is_bit_literal(#[trigger] s[i])
}

/// The bits of `s`, most significant first, read as a number and kept to
/// its lowest 32 bits.
pub open spec fn bits_value(s: Seq<Expression>) -> nat
    decreases s.len(),
{
    if s.len() == 0 {
        0
    } else {
        ((2 * bits_value(s.drop_last()) + bit_of(s.last())) % 0x1_0000_0000) as nat
    }
}

/// The value of a vector of bit literals, most significant bit first; bits
/// above the 32nd are shifted out.
pub fn bit_vector_value(list: &Vec<Expression>) -> (r: u32)
    requires
        all_bit_literals(list@),
    ensures
        r == bits_value(list@),
{
    let mut bits: u32 = 0;
    let mut i: usize = 0;
    assert(list@.take(0) =~= Seq::<Expression>::empty());
    while i < list.len()
        invariant
            i <= list@.len(),
            all_bit_literals(list@),
            bits == bits_value(list@.take(i as int)),
        decreases list@.len() - i,
    {
        assert(list@.take(i + 1).drop_last() =~= list@.take(i as int));
        assert(is_bit_literal(list@[i as int]));
        let b: u32 = match &list[i] {
            Expression::Literal(Literal::True) => 1,
            _ => 0,
        };
        assert(b == bit_of(list@[i as int]));
        assert(((bits << 1u32) | b) == ((2 * bits + b) % 0x1_0000_0000) as u32) by (bit_vector)
            requires
                b <= 1,
        ;
        bits = (bits << 1u32) | b;
        i = i + 1;
    }
    assert(list@.take(i as int) =~= list@);
    bits
}

/// A `bitvector_concat` tree: applications of `bitvector_concat` to at least
/// two arguments, nested through the second argument.
pub open spec fn concat_tree_ok(e: Expression) -> bool
    decreases e,
{
    match e {
        Expression::Application(ident, list) => is_named(ident, "bitvector_concat"@) && list@.len() >= 2
            && concat_tree_ok(list@[1]),
        _ => true,
    }
}

/// The leaves of a `bitvector_concat` tree, from left to right.
pub open spec fn flatten_concat(e: Expression) -> Seq<Expression>
    decreases e,
{
    match e {
        Expression::Application(_, list) => if list@.len() >= 2 {
            seq![list@[0]] + flatten_concat(list@[1])
        } else {
            Seq::empty()
        },
        _ => seq![e],
    }
}

/// Flatten `bitvector_concat` tree.
pub fn fold_bitvector_concat_tree(bitvec_concat: &Expression) -> (r: Vec<&Expression>)
    requires
        concat_tree_ok(*bitvec_concat),
    ensures
        r@.len() == flatten_concat(*bitvec_concat).len(),
        forall|i: int| 0 <= i < r@.len() ==> *r@[i] == flatten_concat(*bitvec_concat)[i],
    decreases bitvec_concat,
{
    match bitvec_concat {
        Expression::Application(_ident, exp_list) => {
            // not leaf
            let mut r: Vec<&Expression> = Vec::new();
            r.push(&exp_list[0]);
            let rest = fold_bitvector_concat_tree(&exp_list[1]);
            let mut i: usize = 0;
            while i < rest.len()
                invariant
                    i <= rest@.len(),
                    r@.len() == i + 1,
                    *r@[0] == exp_list@[0],
                    forall|k: int| 0 <= k < i ==> r@[k + 1] == rest@[k],
                decreases rest@.len() - i,
            {
                r.push(rest[i]);
                i = i + 1;
            }
            assert forall|k: int| 0 <= k < r@.len() implies *r@[k] == flatten_concat(*bitvec_concat)[k] by {
                if k > 0 {
                    assert(r@[k] == rest@[k - 1]);
                }
            }
            r
        },
        _ => {
            // leaf
            let mut r: Vec<&Expression> = Vec::new();
            r.push(bitvec_concat);
            r
        },
    }
}

/// The bit width that a cast names: the constant first argument of its type.
pub open spec fn cast_width(typ: Typ) -> int {
    match typ {
        Typ::Application(_, args) => match args@[0] {
            TypArg::NExp(NumericExpression::Constant(w)) => w as int,
            _ => 0,
        },
        _ => 0,
    }
}

/// A leaf of an encoding: a vector of bit literals, or a cast of a named
/// field to a bit vector type of constant width.
pub open spec fn piece_ok(e: Expression) -> bool {
    match e {
        Expression::Vector(list) => all_bit_literals(list@),
        Expression::Cast(typ, inner) => {
            &&& *inner matches Expression::Identifier(Identifier::Identifier(_))
            &&& typ matches Typ::Application(_, args)
            &&& args@.len() > 0
            &&& args@[0] matches TypArg::NExp(NumericExpression::Constant(_))
        },
        _ => false,
    }
}

/// The number of bits a leaf of an encoding occupies.
pub open spec fn piece_width(e: Expression) -> int {
    match e {
        Expression::Vector(list) => list@.len() as int,
        Expression::Cast(typ, _) => cast_width(typ),
        _ => 0,
    }
}

/// The bit range from `offset` over `width` bits: its lowest and highest bit.
pub open spec fn bit_range(offset: int, width: int) -> Range<u8> {
    Range { start: offset as u8, end: (offset + width - 1) as u8 }
}

/// The operand that a leaf of an encoding gives when its lowest bit is `offset`.
pub open spec fn piece_operand(e: Expression, offset: int) -> Operand {
    match e {
        Expression::Vector(list) => Operand::Imm(
            Immediate { value: bits_value(list@) as u32, range: bit_range(offset, list@.len() as int) },
        ),
        Expression::Cast(typ, inner) => match *inner {
            Expression::Identifier(Identifier::Identifier(name)) => Operand::Named(
                NamedOperand { name, range: bit_range(offset, cast_width(typ)) },
            ),
            _ => Operand::Imm(Immediate { value: 0, range: bit_range(offset, 0) }),
        },
        _ => Operand::Imm(Immediate { value: 0, range: bit_range(offset, 0) }),
    }
}

/// Leaves of an encoding, most significant first, that fit from bit `offset`
/// up to bit 254: each well formed and at least one bit wide.
pub open spec fn layout_ok(s: Seq<Expression>, offset: int) -> bool
    decreases s.len(),
{
    s.len() == 0 || {
        &&& piece_ok(s.last())
        &&& 1 <= piece_width(s.last())
        &&& offset + piece_width(s.last()) <= 255
        &&& layout_ok(s.drop_last(), offset + piece_width(s.last()))
    }
}

/// The operands of leaves of an encoding, most significant first, laid out
/// from bit `offset`: the last leaf takes the lowest bits, and each operand
/// follows the one before it without a gap.
pub open spec fn layout(s: Seq<Expression>, offset: int) -> Seq<Operand>
    decreases s.len(),
{
    if s.len() == 0 {
        Seq::empty()
    } else {
        seq![piece_operand(s.last(), offset)] + layout(s.drop_last(), offset + piece_width(s.last()))
    }
}

/// The bit vector expression on the right of an encoding arm can be read.
pub open spec fn encoding_rhs_ok(e: Expression) -> bool {
    concat_tree_ok(e) && layout_ok(flatten_concat(e), 0)
}

/// The operands of the bit vector expression on the right of an encoding arm.
pub open spec fn spec_encoding_rule_rhs(e: Expression) -> Seq<Operand> {
    layout(flatten_concat(e), 0)
}

/// Get rhs of the encode data: the operands of its leaves, lowest bits first.
pub fn get_encoding_rule_rhs(pat_rhs: &Expression) -> (r: Vec<Operand>)
    requires
        encoding_rhs_ok(*pat_rhs),
    ensures
        r@ == spec_encoding_rule_rhs(*pat_rhs),
{
    let mut op_list: Vec<Operand> = Vec::new();
    let mut offset: u8 = 0;
    let exp_list = fold_bitvector_concat_tree(pat_rhs);
    let ghost s = flatten_concat(*pat_rhs);
    let mut j: usize = exp_list.len();
    assert(s.take(j as int) =~= s);
    while j > 0
        invariant
            j <= exp_list@.len(),
            exp_list@.len() == s.len(),
            forall|i: int| 0 <= i < exp_list@.len() ==> *exp_list@[i] == s[i],
            layout_ok(s.take(j as int), offset as int),
            op_list@ + layout(s.take(j as int), offset as int) == layout(s, 0),
        decreases j,
    {
        let ghost t = s.take(j as int);
        assert(t.last() == s[j - 1]);
        assert(t.drop_last() =~= s.take(j - 1));
        let exp_aux = exp_list[j - 1];
        let ghost old_ops = op_list@;
        match exp_aux {
            Expression::Vector(list_exp) => {
                let bit_width = list_exp.len();
                let bit_vec = bit_vector_value(list_exp);
                let width = bit_width as u8;
                op_list.push(
                    Operand::Imm(Immediate { value: bit_vec, range: Range { start: offset, end: width - 1 + offset } }),
                );
                offset = offset + width;
            },
            Expression::Cast(typ, ident) => {
                let name = match &**ident {
                    Expression::Identifier(cast_ident) => unwrap_ident(cast_ident).clone(),
                    _ => {
                        proof {
                            assert(false);
                        }
                        unreached()
                    },
                };
                let bit_width: i64 = match typ {
                    Typ::Application(_ident, exp_list) => match &exp_list[0] {
                        TypArg::NExp(NumericExpression::Constant(w)) => *w,
                        _ => {
                            proof {
                                assert(false);
                            }
                            unreached()
                        },
                    },
                    _ => {
                        proof {
                            assert(false);
                        }
                        unreached()
                    },
                };
                let width = bit_width as u8;
                op_list.push(Operand::Named(NamedOperand { name, range: Range { start: offset, end: width - 1 + offset } }));
                offset = offset + width;
            },
            _ => {
                proof {
                    assert(false);
                }
                unreached()
            },
        }
        assert(op_list@ == old_ops + seq![piece_operand(t.last(), (offset - piece_width(t.last())) as int)]);
        assert(op_list@ + layout(s.take(j - 1), offset as int) =~= old_ops + layout(t, (offset - piece_width(t.last())) as int));
        j = j - 1;
    }
    assert(op_list@ =~= layout(s, 0));
    op_list
}

/// Union clause definition for AST.
///
/// e.g. `RISCV_SLLIUW`, `ZBA_RTYPE`
#[derive(Debug)]
pub struct InstType {
    /// Union name
    pub name: String,
    /// Referenced instructions.
    pub _insts: Option<Vec<Identifier>>,
    /// Index of the instruction.
    pub index: Option<usize>,
}

/// What an `InstType` holds, with the referenced instructions as a sequence.
pub struct InstTypeView {
    pub name: String,
    pub insts: Option<Seq<Identifier>>,
    pub index: Option<usize>,
}

impl View for InstType {
    type V = InstTypeView;

    open spec fn view(&self) -> InstTypeView {
        InstTypeView {
            name: self.name,
            insts: match self._insts {
                Some(v) => Some(v@),
                None => None,
            },
            index: self.index,
        }
    }
}

/// An argument type that names an enumeration of `defs`.
pub open spec fn is_enum_arg(defs: Seq<Definition>, t: Typ) -> bool {
    t matches Typ::Id(id) && spec_enum_variants(defs, id) is Some
}

/// The predicate of [`is_enum_arg`].
pub open spec fn enum_arg_pred(defs: Seq<Definition>) -> spec_fn(Typ) -> bool {
    |t: Typ| is_enum_arg(defs, t)
}

/// The position of the first argument of a tuple type that names an enumeration.
pub open spec fn spec_inst_index(defs: Seq<Definition>, typ: Typ) -> Option<int> {
    match typ {
        Typ::Tuple(list) => first_index(list@, enum_arg_pred(defs)),
        _ => None,
    }
}

/// The `InstType` of a union constructor.
pub open spec fn spec_inst_type(defs: Seq<Definition>, u: TypeUnion) -> InstTypeView {
    let index = spec_inst_index(defs, u.typ);
    InstTypeView {
        name: u.id->Identifier_0,
        insts: match index {
            Some(i) => spec_enum_variants(defs, u.typ->Tuple_0@[i]->Id_0),
            None => None,
        },
        index: match index {
            Some(i) => Some(i as usize),
            None => None,
        },
    }
}

impl Identifier {
    /// A copy of the identifier.
    pub fn copy(&self) -> (r: Identifier)
        ensures
            r == *self,
    {
        match self {
            Identifier::Identifier(s) => Identifier::Identifier(s.clone()),
            Identifier::Operator(s) => Identifier::Operator(s.clone()),
        }
    }
}

/// A copy of a list of identifiers.
fn copy_identifiers(v: &Vec<Identifier>) -> (r: Vec<Identifier>)
    ensures
        r@ == v@,
{
    let mut r: Vec<Identifier> = Vec::new();
    let mut i: usize = 0;
    while i < v.len()
        invariant
            i <= v@.len(),
            r@ == v@.take(i as int),
        decreases v@.len() - i,
    {
        r.push(v[i].copy());
        i = i + 1;
        assert(r@ =~= v@.take(i as int));
    }
    assert(v@.take(i as int) =~= v@);
    r
}

impl InstType {
    /// The `InstType` of a union constructor: its name and the first argument
    /// whose type is an enumeration, with that enumeration's variants.
    pub fn new(ast: &Ast, type_union: &TypeUnion) -> (r: Self)
        requires
            type_union.id is Identifier,
        ensures
            r@ == spec_inst_type(ast.0@, *type_union),
    {
        let name = unwrap_ident(&type_union.id).clone();
        if let Typ::Tuple(list_typ) = &type_union.typ {
            let ghost p = enum_arg_pred(ast.0@);
            let mut index: usize = 0;
            while index < list_typ.len()
                invariant
                    index <= list_typ@.len(),
                    type_union.typ == Typ::Tuple(*list_typ),
                    type_union.id == Identifier::Identifier(name),
                    p == enum_arg_pred(ast.0@),
                    forall|j: int| 0 <= j < index ==> !is_enum_arg(ast.0@, #[trigger] list_typ@[j]),
                decreases list_typ@.len() - index,
            {
                if let Typ::Id(ident) = &list_typ[index] {
                    if let Some(insts) = ast.get_enum_variants(ident) {
                        proof {
                            lemma_first_index(list_typ@, p, index as int);
                        }
                        return InstType { name, _insts: Some(copy_identifiers(insts)), index: Some(index) };
                    }
                }
                index = index + 1;
            }
            proof {
                lemma_first_index(list_typ@, p, index as int);
            }
        }
        InstType { name, _insts: None, index: None }
    }
}

/// The name of the union argument that an `InstType` marks can be read from
/// the pattern arguments (or, with no such argument, the constructor is a
/// plain name).
pub open spec fn lhs_ok(ident: Identifier, index: Option<usize>, pats: Seq<Pattern>) -> bool {
    match index {
        Some(i) => {
            &&& pats.len() > 0
            &&& pats[0].inner matches PatternAux::Tuple(args)
            &&& i < args@.len()
            &&& args@[i as int].inner matches PatternAux::Identifier(Identifier::Identifier(_))
        },
        None => match ident {
            Identifier::Identifier(_) => true,
            Identifier::Operator(_) => false,
        },
    }
}

/// The instruction name on the left of an encoding arm.
pub open spec fn spec_encoding_rule_lhs(ident: Identifier, index: Option<usize>, pats: Seq<Pattern>) -> String {
    match index {
        Some(i) => match pats[0].inner {
            PatternAux::Tuple(args) => match args@[i as int].inner {
                PatternAux::Identifier(Identifier::Identifier(n)) => n,
                _ => arbitrary(),
            },
            _ => arbitrary(),
        },
        None => ident->Identifier_0,
    }
}

/// Show lhs of the encode data: the name of the union argument that the
/// `InstType` marks, or else the constructor's name.
pub fn get_encoding_rule_lhs(ident: &Identifier, inst: &InstType, pat_list: &Vec<Pattern>) -> (r: String)
    requires
        lhs_ok(*ident, inst.index, pat_list@),
    ensures
        r == spec_encoding_rule_lhs(*ident, inst.index, pat_list@),
{
    match inst.index {
        Some(index) => {
            if let PatternAux::Tuple(union_args) = &pat_list[0].inner {
                if let PatternAux::Identifier(union_ident) = &union_args[index].inner {
                    return unwrap_ident(union_ident).clone();
                }
            }
            proof {
                assert(false);
            }
            unreached()
        },
        None => unwrap_ident(ident).clone(),
    }
}

/// A union constructor defined in the file named `target`.
pub open spec fn union_in_target(u: TypeUnion, target: Seq<char>) -> bool {
    in_file(u.location, target)
}

/// The `InstType`s of the union constructors defined in the file `target`, in order.
pub open spec fn spec_insns_in_target(defs: Seq<Definition>, unions: Seq<TypeUnion>, target: Seq<char>) -> Seq<
    InstTypeView,
> {
    unions.filter_map(
        |u: TypeUnion|
            if union_in_target(u, target) {
                Some(spec_inst_type(defs, u))
            } else {
                None
            },
    )
}

/// The union constructors of the `ast` definition, if there is one.
pub open spec fn ast_unions(defs: Seq<Definition>) -> Seq<TypeUnion> {
    match first_match(defs, ast_pred()) {
        Some(Definition::Variant(_, unions)) => unions@,
        _ => Seq::empty(),
    }
}

/// The `ast` definition exists, each of its constructors that lies in a
/// source range names a file, and those in `target` are plain names.
pub open spec fn insns_in_target_ok(defs: Seq<Definition>, target: Seq<char>) -> bool {
    &&& first_match(defs, ast_pred()) is Some
    &&& forall|i: int|
        #![trigger ast_unions(defs)[i]]
        0 <= i < ast_unions(defs).len() && ast_unions(defs)[i].location is Range ==> {
            &&& has_file_name(ast_unions(defs)[i].location)
            &&& union_in_target(ast_unions(defs)[i], target) ==> ast_unions(defs)[i].id is Identifier
        }
}

/// Every constructor of the `ast` union defined in the file `target` gives
/// one `InstType`, whatever its argument type, in order: there are as many
/// as such constructors, the `k`-th is named after the `k`-th of them, and a
/// constructor whose argument is no tuple marks no argument.
pub proof fn lemma_insns_in_target_one_per_constructor(defs: Seq<Definition>, target: Seq<char>)
    ensures
        spec_insns_in_target(defs, ast_unions(defs), target).len() == ast_unions(defs).filter(
            |u: TypeUnion| in_file(u.location, target),
        ).len(),
        forall|k: int|
            0 <= k < spec_insns_in_target(defs, ast_unions(defs), target).len() ==> {
                let u = ast_unions(defs).filter(|u: TypeUnion| in_file(u.location, target))[k];
                &&& (#[trigger] spec_insns_in_target(defs, ast_unions(defs), target)[k]).name == u.id->Identifier_0
                &&& u.typ !is Tuple ==> spec_insns_in_target(defs, ast_unions(defs), target)[k].index is None
            },
{
    let unions = ast_unions(defs);
    let f = |u: TypeUnion|
        if union_in_target(u, target) {
            Some(spec_inst_type(defs, u))
        } else {
            None
        };
    let p = |u: TypeUnion| in_file(u.location, target);
    assert forall|u: TypeUnion| #[trigger] f(u) is Some <==> p(u) by {}
    lemma_filter_map_as_filter(unions, f, p);
    let kept = unions.filter(p);
    assert forall|k: int| 0 <= k < spec_insns_in_target(defs, unions, target).len() implies {
        let u = kept[k];
        &&& (#[trigger] spec_insns_in_target(defs, unions, target)[k]).name == u.id->Identifier_0
        &&& u.typ !is Tuple ==> spec_insns_in_target(defs, unions, target)[k].index is None
    } by {
        assert(f(kept[k]) == Some(spec_insns_in_target(defs, unions, target)[k]));
    }
}

/// Get ast node that is contained in target file: the `InstType` of each
/// constructor of the `ast` union that is defined in the file `target_file_name`.
pub fn get_insns_in_target_file(ast: &Ast, target_file_name: &str) -> (r: Vec<InstType>)
    requires
        insns_in_target_ok(ast.0@, target_file_name@),
    ensures
        r@.len() == spec_insns_in_target(ast.0@, ast_unions(ast.0@), target_file_name@).len(),
        forall|k: int|
            0 <= k < r@.len() ==> #[trigger] r@[k]@ == spec_insns_in_target(
                ast.0@,
                ast_unions(ast.0@),
                target_file_name@,
            )[k],
{
    let ast_node = match ast.get_ast_node() {
        Ok(node) => {
            proof {
                lemma_first_match_some(ast.0@, ast_pred());
            }
            node
        },
        Err(_) => {
            proof {
                assert(false);
            }
            unreached()
        },
    };
    let mut type_vec: Vec<InstType> = Vec::new();
    if let Definition::Variant(_ident, union_list) = ast_node {
        let ghost unions = ast_unions(ast.0@);
        assert(unions == union_list@);
        let ghost f = |u: TypeUnion|
            if union_in_target(u, target_file_name@) {
                Some(spec_inst_type(ast.0@, u))
            } else {
                None
            };
        let mut i: usize = 0;
        while i < union_list.len()
            invariant
                i <= union_list@.len(),
                unions == union_list@,
                unions == ast_unions(ast.0@),
                insns_in_target_ok(ast.0@, target_file_name@),
                f == (|u: TypeUnion|
                    if union_in_target(u, target_file_name@) {
                        Some(spec_inst_type(ast.0@, u))
                    } else {
                        None
                    }),
                type_vec@.len() == unions.take(i as int).filter_map(f).len(),
                forall|k: int|
                    0 <= k < type_vec@.len() ==> #[trigger] type_vec@[k]@ == unions.take(i as int).filter_map(
                        f,
                    )[k],
            decreases union_list@.len() - i,
        {
            proof {
                unions.lemma_filter_map_take_succ(f, i as int);
            }
            let type_union = &union_list[i];
            assert(unions[i as int] == *type_union);
            if let crate::sail_ast::Location::Range(_) = &type_union.location {
                if check_defined_location(&type_union.location, target_file_name) {
                    type_vec.push(InstType::new(ast, type_union));
                }
            }
            i = i + 1;
        }
        assert(unions.take(i as int) =~= unions);
    } else {
        proof {
            assert(false);
        }
    }
    type_vec
}

/// An `InstType` called as the plain name `ident`.
pub open spec fn type_named(t: InstTypeView, ident: Identifier) -> bool {
    ident matches Identifier::Identifier(n) && t.name@ == n@
}

/// The predicate of [`type_named`].
pub open spec fn type_pred(ident: Identifier) -> spec_fn(InstTypeView) -> bool {
    |t: InstTypeView| type_named(t, ident)
}

/// The instruction that an arm `C(args) if guard => bits` of the encoding
/// mapping gives: only arms whose constructor `C` is one of `types` give one.
pub open spec fn spec_arm_instruction(arm: PatternMatch, types: Seq<InstTypeView>) -> Option<InstructionView> {
    match arm {
        PatternMatch::When(lhs, _, rhs) => match lhs.inner {
            PatternAux::Application(ident, pats) => match first_match(types, type_pred(ident)) {
                Some(t) => Some(
                    InstructionView {
                        name: spec_encoding_rule_lhs(ident, t.index, pats@),
                        group_name: if t.index is Some {
                            Some(t.name)
                        } else {
                            None
                        },
                        operands: spec_encoding_rule_rhs(rhs),
                    },
                ),
                None => None,
            },
            _ => None,
        },
        _ => None,
    }
}

/// An arm of the encoding mapping can be read: its constructor is a plain name
/// where there are types to compare it with, and where it names one of them,
/// its instruction name and its bit vector can be read.
pub open spec fn arm_ok(arm: PatternMatch, types: Seq<InstTypeView>) -> bool {
    match arm {
        PatternMatch::When(lhs, _, rhs) => match lhs.inner {
            PatternAux::Application(ident, pats) => {
                &&& types.len() > 0 ==> ident is Identifier
                &&& match first_match(types, type_pred(ident)) {
                    Some(t) => lhs_ok(ident, t.index, pats@) && encoding_rhs_ok(rhs),
                    None => true,
                }
            },
            _ => true,
        },
        _ => true,
    }
}

/// The arms of the match in the first clause of `encdec_forwards`.
pub open spec fn encdec_arms(defs: Seq<Definition>) -> Seq<PatternMatch> {
    match spec_function_node(defs, "encdec_forwards"@) {
        Some(c) => match c.pattern_match {
            PatternMatch::Expression(_, Expression::Match(_, arms)) => arms@,
            _ => Seq::empty(),
        },
        None => Seq::empty(),
    }
}

/// The `InstType`s of the file `target`.
pub open spec fn target_types(defs: Seq<Definition>, target: Seq<char>) -> Seq<InstTypeView> {
    spec_insns_in_target(defs, ast_unions(defs), target)
}

/// The instructions of the file `target`: one for each arm of the encoding
/// mapping whose constructor is defined in that file, in the arms' order.
pub open spec fn spec_encoding_rule(defs: Seq<Definition>, target: Seq<char>) -> Seq<InstructionView> {
    encdec_arms(defs).filter_map(|a: PatternMatch| spec_arm_instruction(a, target_types(defs, target)))
}

/// The encoding mapping and the `ast` union of a model can be read for the file `target`.
pub open spec fn encoding_rule_ok(defs: Seq<Definition>, target: Seq<char>) -> bool {
    &&& clauses_present_until(defs, "encdec_forwards"@)
    &&& spec_function_node(defs, "encdec_forwards"@) is Some
    &&& insns_in_target_ok(defs, target)
    &&& forall|i: int|
        0 <= i < encdec_arms(defs).len() ==> arm_ok(#[trigger] encdec_arms(defs)[i], target_types(defs, target))
}

/// The position of the first `InstType` called as `ident`.
fn find_inst_type(types: &Vec<InstType>, ident: &Identifier) -> (r: Option<usize>)
    requires
        types@.len() > 0 ==> ident is Identifier,
    ensures
        match r {
            Some(k) => k < types@.len() && first_match(types@.map_values(|t: InstType| t@), type_pred(*ident))
                == Some(types@[k as int]@),
            None => first_match(types@.map_values(|t: InstType| t@), type_pred(*ident)) is None,
        },
{
    let ghost v = types@.map_values(|t: InstType| t@);
    let ghost p = type_pred(*ident);
    let mut k: usize = 0;
    while k < types.len()
        invariant
            k <= types@.len(),
            v == types@.map_values(|t: InstType| t@),
            types@.len() > 0 ==> ident is Identifier,
            p == type_pred(*ident),
            forall|j: int| 0 <= j < k ==> !type_named(#[trigger] v[j], *ident),
        decreases types@.len() - k,
    {
        assert(v[k as int] == types@[k as int]@);
        if types[k].name == *unwrap_ident(ident) {
            proof {
                lemma_first_match_skip(v, p, k as int);
            }
            return Some(k);
        }
        k = k + 1;
    }
    proof {
        lemma_first_match_skip(v, p, k as int);
    }
    None
}

/// Get encode data of provided instructions: the instructions whose union
/// constructor is defined in the file `target_file_name`, in the order of the
/// arms of the encoding mapping.
pub fn get_encoding_rule(ast: &Ast, target_file_name: &str) -> (r: Vec<Instruction>)
    requires
        encoding_rule_ok(ast.0@, target_file_name@),
    ensures
        r@.len() == spec_encoding_rule(ast.0@, target_file_name@).len(),
        forall|k: int|
            0 <= k < r@.len() ==> #[trigger] r@[k]@ == spec_encoding_rule(ast.0@, target_file_name@)[k],
{
    let encdec_node = match ast.get_encdec_forward_node() {
        Ok(node) => node,
        Err(_) => {
            proof {
                assert(false);
            }
            unreached()
        },
    };
    let mut inst_list: Vec<Instruction> = Vec::new();
    let inst_type_list = get_insns_in_target_file(ast, target_file_name);
    let ghost types = target_types(ast.0@, target_file_name@);
    assert(inst_type_list@.map_values(|t: InstType| t@) =~= types);

    if let PatternMatch::Expression(_pat, exp) = &encdec_node.pattern_match {
        if let Expression::Match(_exp, pat_list) = exp {
            let ghost arms = encdec_arms(ast.0@);
            assert(arms == pat_list@);
            let ghost f = |a: PatternMatch| spec_arm_instruction(a, types);
            let mut i: usize = 0;
            while i < pat_list.len()
                invariant
                    i <= pat_list@.len(),
                    arms == pat_list@,
                    arms == encdec_arms(ast.0@),
                    types == target_types(ast.0@, target_file_name@),
                    inst_type_list@.map_values(|t: InstType| t@) == types,
                    encoding_rule_ok(ast.0@, target_file_name@),
                    f == (|a: PatternMatch| spec_arm_instruction(a, types)),
                    inst_list@.len() == arms.take(i as int).filter_map(f).len(),
                    forall|k: int|
                        0 <= k < inst_list@.len() ==> #[trigger] inst_list@[k]@ == arms.take(i as int).filter_map(
                            f,
                        )[k],
                decreases pat_list@.len() - i,
            {
                proof {
                    arms.lemma_filter_map_take_succ(f, i as int);
                }
                let pat = &pat_list[i];
                assert(arm_ok(arms[i as int], types));
                if let PatternMatch::When(pat_lhs, _exp0, pat_rhs) = pat {
                    if let PatternAux::Application(ident, lhs_pats) = &pat_lhs.inner {
                        let found = find_inst_type(&inst_type_list, ident);
                        if let Some(k) = found {
                            let inst = &inst_type_list[k];
                            inst_list.push(
                                Instruction {
                                    name: get_encoding_rule_lhs(ident, inst, lhs_pats),
                                    group_name: match inst.index {
                                        Some(_) => Some(inst.name.clone()),
                                        None => None,
                                    },
                                    operands: get_encoding_rule_rhs(pat_rhs),
                                },
                            );
                        }
                    }
                }
                i = i + 1;
            }
            assert(arms.take(i as int) =~= arms);
        }
    }
    inst_list
}

/// The bit range of an operand.
pub open spec fn op_range(op: Operand) -> Range<u8> {
    match op {
        Operand::Imm(imm) => imm.range,
        Operand::Named(n) => n.range,
    }
}

/// The number of bits that leaves of an encoding occupy together.
pub open spec fn total_width(s: Seq<Expression>) -> int
    decreases s.len(),
{
    if s.len() == 0 {
        0
    } else {
        total_width(s.drop_last()) + piece_width(s.last())
    }
}

/// Laid out from bit `offset`, the operands of an encoding tile its bits: one
/// operand for each leaf, the first (from the last leaf) starting at
/// `offset`, each starting just above the one before it, each as wide as its
/// leaf, and the last ending at `offset` plus the total width, less one.
pub proof fn lemma_layout_contiguous(s: Seq<Expression>, offset: int)
    requires
        layout_ok(s, offset),
        0 <= offset <= 255,
    ensures
        layout(s, offset).len() == s.len(),
        s.len() > 0 ==> op_range(layout(s, offset)[0]).start == offset,
        s.len() > 0 ==> op_range(layout(s, offset)[s.len() - 1]).end == offset + total_width(s) - 1,
        forall|k: int|
            0 <= k < s.len() ==> op_range(#[trigger] layout(s, offset)[k]).end - op_range(
                layout(s, offset)[k],
            ).start + 1 == piece_width(s[s.len() - 1 - k]),
        forall|k: int|
            0 <= k < s.len() - 1 ==> op_range(#[trigger] layout(s, offset)[k + 1]).start == op_range(
                layout(s, offset)[k],
            ).end + 1,
        offset + total_width(s) <= 255,
    decreases s.len(),
{
    if s.len() > 0 {
        let w = piece_width(s.last());
        let rest = s.drop_last();
        lemma_layout_contiguous(rest, offset + w);
        let ops = layout(s, offset);
        let rops = layout(rest, offset + w);
        assert(ops == seq![piece_operand(s.last(), offset)] + rops);
        assert(op_range(ops[0]) == bit_range(offset, w));
        assert(op_range(ops[0]).start == offset);
        assert(op_range(ops[0]).end == offset + w - 1);
        assert forall|k: int|
            0 <= k < s.len() implies op_range(#[trigger] ops[k]).end - op_range(ops[k]).start + 1
            == piece_width(s[s.len() - 1 - k]) by {
            if k > 0 {
                assert(ops[k] == rops[k - 1]);
                assert(rest[rest.len() - 1 - (k - 1)] == s[s.len() - 1 - k]);
            }
        }
        assert forall|k: int| 0 <= k < s.len() - 1 implies op_range(#[trigger] ops[k + 1]).start == op_range(
            ops[k],
        ).end + 1 by {
            assert(ops[k + 1] == rops[k]);
            if k > 0 {
                assert(ops[k] == rops[k - 1]);
                let k1 = k - 1;
                assert(op_range(rops[k1 + 1]).start == op_range(rops[k1]).end + 1);
            } else {
                assert(op_range(rops[0]).start == offset + w);
            }
        }
        if rest.len() > 0 {
            assert(ops[s.len() - 1] == rops[rest.len() - 1]);
        }
    }
}

/// The operands of an encoding arm's bit vector tile its bits from bit 0:
/// one operand for each leaf, lowest first, each just above the one before.
pub proof fn lemma_encoding_rule_rhs_contiguous(e: Expression)
    requires
        encoding_rhs_ok(e),
    ensures
        spec_encoding_rule_rhs(e).len() == flatten_concat(e).len(),
        flatten_concat(e).len() > 0 ==> op_range(spec_encoding_rule_rhs(e)[0]).start == 0,
        flatten_concat(e).len() > 0 ==> op_range(spec_encoding_rule_rhs(e)[flatten_concat(e).len() - 1]).end
            == total_width(flatten_concat(e)) - 1,
        forall|k: int|
            0 <= k < flatten_concat(e).len() - 1 ==> op_range(#[trigger] spec_encoding_rule_rhs(e)[k + 1]).start
                == op_range(spec_encoding_rule_rhs(e)[k]).end + 1,
        forall|k: int|
            0 <= k < flatten_concat(e).len() ==> op_range(#[trigger] spec_encoding_rule_rhs(e)[k]).end
                - op_range(spec_encoding_rule_rhs(e)[k]).start + 1 == piece_width(
                flatten_concat(e)[flatten_concat(e).len() - 1 - k],
            ),
{
    lemma_layout_contiguous(flatten_concat(e), 0);
}

/// Two to the power `n`.
pub open spec fn two_pow(n: nat) -> nat
    decreases n,
{
    if n == 0 {
        1
    } else {
        2 * two_pow((n - 1) as nat)
    }
}

/// Powers of two grow with the exponent.
pub proof fn lemma_two_pow_mono(a: nat, b: nat)
    requires
        a <= b,
    ensures
        two_pow(a) <= two_pow(b),
    decreases b,
{
    if a < b {
        lemma_two_pow_mono(a, (b - 1) as nat);
    }
}

/// Two to the power 32.
proof fn lemma_two_pow_32()
    ensures
        two_pow(32) == 0x1_0000_0000,
{
    reveal_with_fuel(two_pow, 33);
}

/// A vector of at most 32 bit literals has a value below two to the power
/// of its length: nothing is shifted out, and the value fits its field.
pub proof fn lemma_bits_value_fits(s: Seq<Expression>)
    requires
        s.len() <= 32,
    ensures
        bits_value(s) < two_pow(s.len()),
    decreases s.len(),
{
    if s.len() > 0 {
        lemma_bits_value_fits(s.drop_last());
        lemma_two_pow_mono(s.len(), 32);
        lemma_two_pow_32();
        let b = bits_value(s.drop_last());
        assert(2 * b + bit_of(s.last()) < two_pow(s.len()));
        assert((2 * b + bit_of(s.last())) % 0x1_0000_0000 == 2 * b + bit_of(s.last()));
    }
}

/// Whether an expression is a `bitvector_concat` tree.
fn concat_tree_check(e: &Expression) -> (r: bool)
    ensures
        r == concat_tree_ok(*e),
    decreases e,
{
    match e {
        Expression::Application(ident, list) => {
            let named = match ident {
                Identifier::Identifier(n) => same_text(n.as_str(), "bitvector_concat"),
                Identifier::Operator(_) => false,
            };
            named && list.len() >= 2 && concat_tree_check(&list[1])
        },
        _ => true,
    }
}

/// Whether a vector's elements are all bit literals.
fn bit_literals_check(list: &Vec<Expression>) -> (r: bool)
    ensures
        r == all_bit_literals(list@),
{
    let mut i: usize = 0;
    while i < list.len()
        invariant
            i <= list@.len(),
            forall|j: int| 0 <= j < i ==> is_bit_literal(#[trigger] list@[j]),
        decreases list@.len() - i,
    {
        match &list[i] {
            Expression::Literal(Literal::Zero) | Expression::Literal(Literal::True) => {},
            _ => {
                return false;
            },
        }
        i = i + 1;
    }
    true
}

/// Whether a leaf of an encoding is well formed, and its width if so.
fn piece_check(e: &Expression) -> (r: Option<i64>)
    ensures
        match r {
            Some(w) => piece_ok(*e) && if piece_width(*e) <= 256 {
                w == piece_width(*e)
            } else {
                w == 256
            },
            None => !piece_ok(*e),
        },
{
    match e {
        Expression::Vector(list) => {
            if bit_literals_check(list) {
                if list.len() <= 256 {
                    Some(list.len() as i64)
                } else {
                    // wider than any encoding can be
                    Some(256)
                }
            } else {
                None
            }
        },
        Expression::Cast(typ, inner) => {
            let ident_ok = match &**inner {
                Expression::Identifier(Identifier::Identifier(_)) => true,
                _ => false,
            };
            if !ident_ok {
                return None;
            }
            match typ {
                Typ::Application(_, args) => {
                    if args.len() == 0 {
                        return None;
                    }
                    match &args[0] {
                        TypArg::NExp(NumericExpression::Constant(w)) => if *w <= 256 {
                            Some(*w)
                        } else {
                            Some(256)
                        },
                        _ => None,
                    }
                },
                _ => None,
            }
        },
        _ => None,
    }
}

/// Whether the bit vector expression on the right of an encoding arm can be read.
pub fn encoding_rhs_check(e: &Expression) -> (r: bool)
    ensures
        r == encoding_rhs_ok(*e),
{
    if !concat_tree_check(e) {
        return false;
    }
    let exp_list = fold_bitvector_concat_tree(e);
    let ghost s = flatten_concat(*e);
    let mut offset: i64 = 0;
    let mut j: usize = exp_list.len();
    assert(s.take(j as int) =~= s);
    while j > 0
        invariant
            j <= exp_list@.len(),
            exp_list@.len() == s.len(),
            forall|i: int| 0 <= i < exp_list@.len() ==> *exp_list@[i] == s[i],
            0 <= offset <= 255,
            s == flatten_concat(*e),
            concat_tree_ok(*e),
            layout_ok(s, 0) == layout_ok(s.take(j as int), offset as int),
        decreases j,
    {
        let ghost t = s.take(j as int);
        assert(t.last() == s[j - 1]);
        assert(t.drop_last() =~= s.take(j - 1));
        assert(t.len() > 0);
        let w = match piece_check(exp_list[j - 1]) {
            Some(w) => w,
            None => {
                assert(!layout_ok(t, offset as int));
                return false;
            },
        };
        if w < 1 || w > 255 - offset {
            return false;
        }
        offset = offset + w;
        j = j - 1;
    }
    assert(s.take(0) =~= Seq::<Expression>::empty());
    true
}

/// Whether the instruction name on the left of an encoding arm can be read.
fn lhs_check(ident: &Identifier, index: Option<usize>, pats: &Vec<Pattern>) -> (r: bool)
    ensures
        r == lhs_ok(*ident, index, pats@),
{
    match index {
        Some(i) => {
            if pats.len() == 0 {
                return false;
            }
            match &pats[0].inner {
                PatternAux::Tuple(args) => {
                    if i >= args.len() {
                        return false;
                    }
                    match &args[i].inner {
                        PatternAux::Identifier(Identifier::Identifier(_)) => true,
                        _ => false,
                    }
                },
                _ => false,
            }
        },
        None => match ident {
            Identifier::Identifier(_) => true,
            Identifier::Operator(_) => false,
        },
    }
}

/// Whether the `ast` union of a model can be read for the file `target`.
fn insns_in_target_check(ast: &Ast, target_file_name: &str) -> (r: bool)
    ensures
        r == insns_in_target_ok(ast.0@, target_file_name@),
{
    let ast_node = match ast.get_ast_node() {
        Ok(node) => node,
        Err(_) => {
            return false;
        },
    };
    proof {
        lemma_first_match_some(ast.0@, ast_pred());
    }
    if let Definition::Variant(_ident, union_list) = ast_node {
        let ghost unions = ast_unions(ast.0@);
        assert(unions == union_list@);
        let mut i: usize = 0;
        while i < union_list.len()
            invariant
                i <= union_list@.len(),
                unions == union_list@,
                unions == ast_unions(ast.0@),
                first_match(ast.0@, ast_pred()) is Some,
                forall|j: int|
                    #![trigger unions[j]]
                    0 <= j < i && unions[j].location is Range ==> {
                        &&& has_file_name(unions[j].location)
                        &&& union_in_target(unions[j], target_file_name@) ==> unions[j].id is Identifier
                    },
            decreases union_list@.len() - i,
        {
            let type_union = &union_list[i];
            assert(unions[i as int] == *type_union);
            if let crate::sail_ast::Location::Range(_) = &type_union.location {
                if !location_has_file_name(&type_union.location) {
                    return false;
                }
                if check_defined_location(&type_union.location, target_file_name) {
                    if let Identifier::Operator(_) = &type_union.id {
                        return false;
                    }
                }
            }
            i = i + 1;
        }
        true
    } else {
        proof {
            assert(false);
        }
        false
    }
}

/// Get encode data of provided instructions, or none where the model cannot
/// be read for the file `target_file_name` (where reading it would fail).
pub fn try_get_encoding_rule(ast: &Ast, target_file_name: &str) -> (r: Option<Vec<Instruction>>)
    ensures
        match r {
            Some(v) => encoding_rule_ok(ast.0@, target_file_name@) && v@.len() == spec_encoding_rule(
                ast.0@,
                target_file_name@,
            ).len() && forall|k: int|
                0 <= k < v@.len() ==> #[trigger] v@[k]@ == spec_encoding_rule(ast.0@, target_file_name@)[k],
            None => !encoding_rule_ok(ast.0@, target_file_name@),
        },
{
    if !clauses_present_check(ast, "encdec_forwards") {
        return None;
    }
    let encdec_node = match ast.get_encdec_forward_node() {
        Ok(node) => node,
        Err(_) => {
            return None;
        },
    };
    if !insns_in_target_check(ast, target_file_name) {
        return None;
    }
    let inst_type_list = get_insns_in_target_file(ast, target_file_name);
    let ghost types = target_types(ast.0@, target_file_name@);
    assert(inst_type_list@.map_values(|t: InstType| t@) =~= types);
    if let PatternMatch::Expression(_pat, exp) = &encdec_node.pattern_match {
        if let Expression::Match(_exp, pat_list) = exp {
            let ghost arms = encdec_arms(ast.0@);
            assert(arms == pat_list@);
            let mut i: usize = 0;
            while i < pat_list.len()
                invariant
                    i <= pat_list@.len(),
                    arms == pat_list@,
                    arms == encdec_arms(ast.0@),
                    types == target_types(ast.0@, target_file_name@),
                    inst_type_list@.map_values(|t: InstType| t@) == types,
                    forall|j: int| 0 <= j < i ==> arm_ok(#[trigger] arms[j], types),
                decreases pat_list@.len() - i,
            {
                if let PatternMatch::When(pat_lhs, _exp0, pat_rhs) = &pat_list[i] {
                    if let PatternAux::Application(ident, lhs_pats) = &pat_lhs.inner {
                        if inst_type_list.len() > 0 && matches!(ident, Identifier::Operator(_)) {
                            assert(!arm_ok(arms[i as int], types));
                            return None;
                        }
                        if let Some(k) = find_inst_type(&inst_type_list, ident) {
                            if !lhs_check(ident, inst_type_list[k].index, lhs_pats) || !encoding_rhs_check(pat_rhs) {
                                assert(!arm_ok(arms[i as int], types));
                                return None;
                            }
                        }
                    }
                }
                assert(arm_ok(arms[i as int], types));
                i = i + 1;
            }
        }
    }
    Some(get_encoding_rule(ast, target_file_name))
}

/// The mask of the lowest `width` bits of a word.
pub open spec fn field_mask(width: u32) -> u32 {
    if width >= 32 {
        0xffff_ffffu32
    } else {
        ((1u32 << width) - 1) as u32
    }
}

/// The bits of `x` in the range `r`, shifted down to bit 0.
pub open spec fn field_value(x: u32, r: Range<u8>) -> u32 {
    (x >> (r.start as u32)) & field_mask((r.end - r.start + 1) as u32)
}

/// `x` with the bits in the range `r` replaced by the low bits of `v`.
pub open spec fn with_field(x: u32, r: Range<u8>, v: u32) -> u32 {
    let m = field_mask((r.end - r.start + 1) as u32);
    (x & !(m << (r.start as u32))) | ((v & m) << (r.start as u32))
}

/// Every operand lies within a 32-bit word, its lowest bit first.
pub open spec fn ranges_in_word(ops: Seq<Operand>) -> bool {
    forall|i: int|
        0 <= i < ops.len() ==> op_range(#[trigger] ops[i]).start <= op_range(ops[i]).end < 32
}

/// `x` with the bits of every immediate of `ops` set to the immediate's value.
pub open spec fn spec_fixed_bits(x: u32, ops: Seq<Operand>) -> u32
    decreases ops.len(),
{
    if ops.len() == 0 {
        x
    } else {
        let y = spec_fixed_bits(x, ops.drop_last());
        match ops.last() {
            Operand::Imm(imm) => with_field(y, imm.range, imm.value),
            Operand::Named(_) => y,
        }
    }
}

/// The value of the field called `name` in the word `x`, if the
/// instruction has such a field.
pub open spec fn spec_register_value(ops: Seq<Operand>, name: Seq<char>, x: u32) -> Option<usize> {
    match spec_field_by_name(ops, name) {
        Some(n) => Some(field_value(x, n.range) as usize),
        None => None,
    }
}

/// A test case for an instruction built from the random word `raw`: the word
/// with the instruction's fixed bits set, the values of its `rd`, `rs1` and
/// `rs2` fields in that word, and no immediate.
pub open spec fn spec_random_insn_value(insn: InstructionView, raw: u32) -> (
    u32,
    Option<usize>,
    Option<usize>,
    Option<usize>,
    Option<i32>,
) {
    let v = spec_fixed_bits(raw, insn.operands);
    (
        v,
        spec_register_value(insn.operands, "rd"@, v),
        spec_register_value(insn.operands, "rs1"@, v),
        spec_register_value(insn.operands, "rs2"@, v),
        None,
    )
}

/// Writing a field and reading it back gives the low bits of the value
/// written.
proof fn lemma_read_after_write(x: u32, v: u32, s: u32, w: u32)
    requires
        1 <= w,
        s + w <= 32,
    ensures
        ((((x & !(field_mask(w) << s)) | ((v & field_mask(w)) << s)) >> s) & field_mask(w)) == v & field_mask(w),
{
    let m = field_mask(w);
    if w >= 32 {
        assert(((((x & !(m << s)) | ((v & m) << s)) >> s) & m) == v & m) by (bit_vector)
            requires
                s == 0,
                m == 0xffff_ffffu32,
        ;
    } else {
        assert(((((x & !(m << s)) | ((v & m) << s)) >> s) & m) == v & m) by (bit_vector)
            requires
                1 <= w < 32,
                s + w <= 32,
                m == ((1u32 << w) - 1) as u32,
        ;
    }
}

/// Writing a field leaves a field of other bits as it was.
proof fn lemma_disjoint_write(x: u32, v: u32, s1: u32, w1: u32, s2: u32, w2: u32)
    requires
        1 <= w1,
        1 <= w2,
        s1 + w1 <= 32,
        s2 + w2 <= 32,
        s1 + w1 <= s2 || s2 + w2 <= s1,
    ensures
        ((((x & !(field_mask(w2) << s2)) | ((v & field_mask(w2)) << s2)) >> s1) & field_mask(w1)) == (x
            >> s1) & field_mask(w1),
{
    let m1 = field_mask(w1);
    let m2 = field_mask(w2);
    assert(w1 < 32 && w2 < 32);
    assert(((((x & !(m2 << s2)) | ((v & m2) << s2)) >> s1) & m1) == (x >> s1) & m1) by (bit_vector)
        requires
            1 <= w1 < 32,
            1 <= w2 < 32,
            s1 + w1 <= 32,
            s2 + w2 <= 32,
            s1 + w1 <= s2 || s2 + w2 <= s1,
            m1 == ((1u32 << w1) - 1) as u32,
            m2 == ((1u32 << w2) - 1) as u32,
    ;
}

/// The number of bits of a range, from its lowest to its highest bit.
pub open spec fn range_width(r: Range<u8>) -> u32 {
    (r.end - r.start + 1) as u32
}

/// The immediates of `ops` lie in pairwise disjoint bit ranges.
pub open spec fn imms_disjoint(ops: Seq<Operand>) -> bool {
    forall|i: int, j: int|
        #![trigger ops[i], ops[j]]
        0 <= i < j < ops.len() && ops[i] is Imm && ops[j] is Imm ==> op_range(ops[i]).end < op_range(
            ops[j],
        ).start || op_range(ops[j]).end < op_range(ops[i]).start
}

/// Setting the fixed bits of the immediates of `ops` in a word leaves each
/// immediate readable from it: where the immediates lie in disjoint ranges
/// of the word, the field of each holds its value, cut to the field's width.
pub proof fn lemma_fixed_bits_hold(x: u32, ops: Seq<Operand>)
    requires
        ranges_in_word(ops),
        imms_disjoint(ops),
    ensures
        forall|k: int|
            0 <= k < ops.len() && (#[trigger] ops[k]) is Imm ==> field_value(spec_fixed_bits(x, ops), ops[k]->Imm_0.range)
                == ops[k]->Imm_0.value & field_mask(range_width(ops[k]->Imm_0.range)),
    decreases ops.len(),
{
    if ops.len() > 0 {
        let pre = ops.drop_last();
        let n = ops.len() - 1;
        assert forall|i: int| 0 <= i < pre.len() implies op_range(#[trigger] pre[i]).start <= op_range(pre[i]).end < 32 by {
            assert(pre[i] == ops[i]);
        }
        assert forall|i: int, j: int|
            0 <= i < j < pre.len() && (#[trigger] pre[i]) is Imm && (#[trigger] pre[j]) is Imm implies op_range(
            pre[i],
        ).end < op_range(pre[j]).start || op_range(pre[j]).end < op_range(pre[i]).start by {
            assert(pre[i] == ops[i] && pre[j] == ops[j]);
        }
        lemma_fixed_bits_hold(x, pre);
        let y = spec_fixed_bits(x, pre);
        assert forall|k: int|
            0 <= k < ops.len() && (#[trigger] ops[k]) is Imm implies field_value(spec_fixed_bits(x, ops), ops[k]->Imm_0.range)
            == ops[k]->Imm_0.value & field_mask(range_width(ops[k]->Imm_0.range)) by {
            let r = ops[k]->Imm_0.range;
            assert(op_range(ops[k]) == r);
            if k < n {
                assert(pre[k] == ops[k]);
            }
            match ops.last() {
                Operand::Imm(imm) => {
                    let q = imm.range;
                    assert(op_range(ops[n]) == q);
                    if k == n {
                        lemma_read_after_write(y, imm.value, q.start as u32, range_width(q));
                    } else {
                        lemma_disjoint_write(y, imm.value, r.start as u32, range_width(r), q.start as u32, range_width(q));
                    }
                },
                Operand::Named(_) => {},
            }
        }
    }
}

/// The word of a test case carries the instruction's fixed bits: where the
/// immediates of an instruction lie in disjoint ranges of a 32-bit word,
/// each of them reads back from the word as its value, cut to its width.
pub proof fn lemma_random_insn_value_encodes(insn: InstructionView, raw: u32)
    requires
        ranges_in_word(insn.operands),
        imms_disjoint(insn.operands),
    ensures
        forall|k: int|
            0 <= k < insn.operands.len() && (#[trigger] insn.operands[k]) is Imm ==> field_value(
                spec_random_insn_value(insn, raw).0,
                insn.operands[k]->Imm_0.range,
            ) == insn.operands[k]->Imm_0.value & field_mask(range_width(insn.operands[k]->Imm_0.range)),
{
    lemma_fixed_bits_hold(raw, insn.operands);
}

/// The mask of the lowest `width` bits of a word.
fn mask_of(width: u32) -> (r: u32)
    ensures
        r == field_mask(width),
{
    if width >= 32 {
        0xffff_ffff
    } else {
        assert(1u32 << width >= 1) by (bit_vector)
            requires
                width < 32,
        ;
        (1u32 << width) - 1
    }
}

impl Instruction {
    /// A test case for the instruction built from the random word `raw`: the
    /// word with the instruction's fixed bits set, then the values of its
    /// `rd`, `rs1` and `rs2` fields in that word (none for a field it does
    /// not have), and no immediate.
    pub fn get_random_insn_value(&self, raw: u32) -> (r: (u32, Option<usize>, Option<usize>, Option<usize>, Option<i32>))
        requires
            ranges_in_word(self.operands@),
        ensures
            r == spec_random_insn_value(self@, raw),
    {
        let mut v = raw;
        let mut i: usize = 0;
        assert(self.operands@.take(0) =~= Seq::<Operand>::empty());
        while i < self.operands.len()
            invariant
                i <= self.operands@.len(),
                ranges_in_word(self.operands@),
                v == spec_fixed_bits(raw, self.operands@.take(i as int)),
            decreases self.operands@.len() - i,
        {
            assert(self.operands@.take(i + 1).drop_last() =~= self.operands@.take(i as int));
            if let Operand::Imm(imm) = &self.operands[i] {
                assert(op_range(self.operands@[i as int]) == imm.range);
                let start = imm.range.start as u32;
                let m = mask_of((imm.range.end - imm.range.start + 1) as u32);
                v = (v & !(m << start)) | ((imm.value & m) << start);
            }
            i = i + 1;
        }
        assert(self.operands@.take(i as int) =~= self.operands@);
        let rd = self.register_value("rd", v);
        let rs1 = self.register_value("rs1", v);
        let rs2 = self.register_value("rs2", v);
        (v, rd, rs1, rs2, None)
    }

    /// The value of the field called `name` in the word `x`.
    fn register_value(&self, name: &str, x: u32) -> (r: Option<usize>)
        requires
            ranges_in_word(self.operands@),
        ensures
            r == spec_register_value(self.operands@, name@, x),
    {
        match self.get_field_by_name(name) {
            Some(n) => {
                proof {
                    let p = |op: Operand| is_named_operand(op, name@);
                    lemma_first_match_some(self.operands@, p);
                    let k = choose|k: int|
                        0 <= k < self.operands@.len() && self.operands@[k] == first_match(self.operands@, p)->Some_0;
                    assert(op_range(self.operands@[k]) == n.range);
                }
                let start = n.range.start as u32;
                let m = mask_of((n.range.end - n.range.start + 1) as u32);
                Some(((x >> start) & m) as usize)
            },
            None => None,
        }
    }
}

} // verus!
