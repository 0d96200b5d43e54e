use ozora::ast_util::instruction::{
    fold_bitvector_concat_tree, get_encoding_rule, get_encoding_rule_rhs, try_get_encoding_rule,
    Instruction, Operand,
};
use ozora::ast_util::Ast;
use ozora::sail_ast::{
    Definition, Expression, FunctionClause, Identifier, Literal, Location, NumericExpression,
    Pattern, PatternAux, PatternMatch, TypArg, Typ, TypeUnion,
};

fn ident(s: &str) -> Identifier {
    Identifier::Identifier(s.to_string())
}

fn bits(s: &str) -> Expression {
    Expression::Vector(
        s.chars()
            .map(|c| {
                Expression::Literal(if c == '1' { Literal::True } else { Literal::Zero })
            })
            .collect(),
    )
}

fn field(name: &str, width: i64) -> Expression {
    Expression::Cast(
        Typ::Application(
            ident("bits"),
            vec![TypArg::NExp(NumericExpression::Constant(width))],
        ),
        Box::new(Expression::Identifier(ident(name))),
    )
}

fn concat(mut parts: Vec<Expression>) -> Expression {
    let last = parts.pop().unwrap();
    parts.into_iter().rev().fold(last, |acc, e| {
        Expression::Application(ident("bitvector_concat"), vec![e, acc])
    })
}

fn pat(inner: PatternAux, file: &str) -> Pattern {
    Pattern { inner, location: Location::Range(file.to_string()) }
}

fn pat_ident(name: &str) -> Pattern {
    pat(PatternAux::Identifier(ident(name)), "model/riscv_insts_zba.sail")
}

fn sliliuw_rhs() -> Expression {
    concat(vec![
        bits("000010"),
        field("shamt", 6),
        field("rs1", 5),
        bits("001"),
        field("rd", 5),
        bits("0011011"),
    ])
}

fn model() -> Ast {
    let unions = vec![
        TypeUnion {
            id: ident("RISCV_SLLIUW"),
            typ: Typ::Tuple(vec![Typ::Id(ident("bits6")), Typ::Id(ident("regidx"))]),
            location: Location::Range("model/riscv_insts_zba.sail".to_string()),
        },
        TypeUnion {
            id: ident("ZBA_RTYPE"),
            typ: Typ::Tuple(vec![
                Typ::Id(ident("regidx")),
                Typ::Id(ident("regidx")),
                Typ::Id(ident("regidx")),
                Typ::Id(ident("brop_zba")),
            ]),
            location: Location::Range("model/riscv_insts_zba.sail".to_string()),
        },
        TypeUnion {
            id: ident("ADD"),
            typ: Typ::Tuple(vec![]),
            location: Location::Range("model/riscv_insts_base.sail".to_string()),
        },
    ];
    let arms = vec![
        PatternMatch::When(
            pat(
                PatternAux::Application(
                    ident("RISCV_SLLIUW"),
                    vec![pat(
                        PatternAux::Tuple(vec![
                            pat_ident("shamt"),
                            pat_ident("rs1"),
                            pat_ident("rd"),
                        ]),
                        "model/riscv_insts_zba.sail",
                    )],
                ),
                "model/riscv_insts_zba.sail",
            ),
            Expression::Other,
            sliliuw_rhs(),
        ),
        PatternMatch::When(
            pat(
                PatternAux::Application(
                    ident("ZBA_RTYPE"),
                    vec![pat(
                        PatternAux::Tuple(vec![
                            pat_ident("rs2"),
                            pat_ident("rs1"),
                            pat_ident("rd"),
                            pat_ident("RISCV_SH1ADD"),
                        ]),
                        "model/riscv_insts_zba.sail",
                    )],
                ),
                "model/riscv_insts_zba.sail",
            ),
            Expression::Other,
            concat(vec![
                bits("0010000"),
                field("rs2", 5),
                field("rs1", 5),
                bits("010"),
                field("rd", 5),
                bits("0110011"),
            ]),
        ),
        PatternMatch::When(
            pat(PatternAux::Application(ident("ADD"), vec![]), "model/riscv_insts_base.sail"),
            Expression::Other,
            bits("0110011"),
        ),
    ];
    Ast::new(vec![
        Definition::Other,
        Definition::Enumeration(
            ident("brop_zba"),
            vec![ident("RISCV_SH1ADD"), ident("RISCV_SH2ADD")],
        ),
        Definition::Variant(ident("ast"), unions),
        Definition::Function(vec![FunctionClause {
            identifier: ident("encdec_forwards"),
            pattern_match: PatternMatch::Expression(
                pat(PatternAux::Other, "model/riscv_insts_base.sail"),
                Expression::Match(Box::new(Expression::Other), arms),
            ),
        }]),
    ])
}

fn describe(op: &Operand) -> String {
    match op {
        Operand::Imm(imm) => format!("imm {:#b} {}..{}", imm.value, imm.range.start, imm.range.end),
        Operand::Named(n) => format!("{} {}..{}", n.name, n.range.start, n.range.end),
    }
}

fn describe_insn(insn: &Instruction) -> Vec<String> {
    insn.operands.iter().map(describe).collect()
}

#[test]
fn flatten_concat_tree_in_order() {
    let e = sliliuw_rhs();
    let leaves = fold_bitvector_concat_tree(&e);
    assert_eq!(leaves.len(), 6);
    assert!(matches!(leaves[0], Expression::Vector(v) if v.len() == 6));
    assert!(matches!(leaves[5], Expression::Vector(v) if v.len() == 7));
}

#[test]
fn rhs_operands_tile_the_word_from_bit_zero() {
    let ops = get_encoding_rule_rhs(&sliliuw_rhs());
    let d: Vec<String> = ops.iter().map(describe).collect();
    assert_eq!(
        d,
        vec![
            "imm 0b11011 0..6",
            "rd 7..11",
            "imm 0b1 12..14",
            "rs1 15..19",
            "shamt 20..25",
            "imm 0b10 26..31",
        ]
    );
}

#[test]
fn single_vector_is_one_immediate() {
    let ops = get_encoding_rule_rhs(&bits("0110011"));
    assert_eq!(ops.iter().map(describe).collect::<Vec<_>>(), vec!["imm 0b110011 0..6"]);
}

#[test]
fn encoding_rule_keeps_target_file_instructions() {
    let ast = model();
    let insns = get_encoding_rule(&ast, "riscv_insts_zba.sail");
    assert_eq!(insns.len(), 2);
    assert_eq!(insns[0].name, "RISCV_SLLIUW");
    assert_eq!(insns[0].group_name, None);
    assert_eq!(insns[1].name, "RISCV_SH1ADD");
    assert_eq!(insns[1].group_name, Some("ZBA_RTYPE".to_string()));
    assert_eq!(
        describe_insn(&insns[1]),
        vec!["imm 0b110011 0..6", "rd 7..11", "imm 0b10 12..14", "rs1 15..19", "rs2 20..24", "imm 0b10000 25..31"]
    );
}

#[test]
fn encoding_rule_other_file() {
    let ast = model();
    let insns = get_encoding_rule(&ast, "riscv_insts_base.sail");
    assert_eq!(insns.len(), 1);
    assert_eq!(insns[0].name, "ADD");
    assert_eq!(describe_insn(&insns[0]), vec!["imm 0b110011 0..6"]);
    assert!(get_encoding_rule(&ast, "nothing.sail").is_empty());
}

#[test]
fn try_encoding_rule_accepts_and_refuses() {
    let ast = model();
    assert_eq!(try_get_encoding_rule(&ast, "riscv_insts_zba.sail").map(|v| v.len()), Some(2));
    // No encoding mapping at all.
    let empty = Ast::new(vec![Definition::Variant(ident("ast"), vec![])]);
    assert!(try_get_encoding_rule(&empty, "riscv_insts_zba.sail").is_none());
    // A field wider than the encoding allows.
    let mut bad = model();
    if let Definition::Function(clauses) = &mut bad.0[3] {
        if let PatternMatch::Expression(_, Expression::Match(_, arms)) = &mut clauses[0].pattern_match {
            if let PatternMatch::When(_, _, rhs) = &mut arms[2] {
                *rhs = concat(vec![field("rd", 300), bits("1")]);
            }
        }
    }
    assert!(try_get_encoding_rule(&bad, "riscv_insts_base.sail").is_none());
    assert!(try_get_encoding_rule(&bad, "riscv_insts_zba.sail").is_some());
}
