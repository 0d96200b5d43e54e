use ozora::ast_util::csrs::{get_csr_ident, get_csr_number, get_csrs_definition, try_get_csrs_definition};
use ozora::ast_util::Ast;
use ozora::sail_ast::{
    Definition, Expression, FunctionClause, Identifier, Literal, Location, Pattern, PatternAux,
    PatternMatch,
};

fn ident(s: &str) -> Identifier {
    Identifier::Identifier(s.to_string())
}

fn bits(s: &str) -> Expression {
    Expression::Vector(
        s.chars()
            .map(|c| Expression::Literal(if c == '1' { Literal::True } else { Literal::Zero }))
            .collect(),
    )
}

fn eq_bits(s: &str) -> Expression {
    Expression::Application(
        ident("eq_bits"),
        vec![Expression::Identifier(ident("b__0")), bits(s)],
    )
}

fn arm(file: &str, number: &str, name: &str) -> PatternMatch {
    PatternMatch::When(
        Pattern {
            inner: PatternAux::Identifier(ident("b__0")),
            location: Location::Range(file.to_string()),
        },
        eq_bits(number),
        Expression::Literal(Literal::String(name.to_string())),
    )
}

fn model(arms: Vec<PatternMatch>) -> Ast {
    Ast::new(vec![
        Definition::Function(vec![FunctionClause {
            identifier: ident("other_function"),
            pattern_match: PatternMatch::Expression(
                Pattern { inner: PatternAux::Other, location: Location::Unknown },
                Expression::Other,
            ),
        }]),
        Definition::Function(vec![FunctionClause {
            identifier: ident("csr_name_map_forwards"),
            pattern_match: PatternMatch::Expression(
                Pattern { inner: PatternAux::Other, location: Location::Unknown },
                Expression::Match(Box::new(Expression::Other), arms),
            ),
        }]),
    ])
}

#[test]
fn csr_number_reads_bits_most_significant_first() {
    assert_eq!(get_csr_number(&eq_bits("000000000001")).0, 1);
    assert_eq!(get_csr_number(&eq_bits("000000010001")).0, 0x011);
    assert_eq!(get_csr_number(&eq_bits("110000000000")).0, 0xc00);
    assert_eq!(get_csr_number(&eq_bits("")).0, 0);
}

#[test]
fn csr_number_keeps_low_32_bits() {
    // 33 bits: the leading one is shifted out.
    let long = format!("1{}", "0".repeat(31) + "1");
    assert_eq!(get_csr_number(&eq_bits(&long)).0, 1);
}

#[test]
fn csr_ident_is_the_string() {
    let e = Expression::Literal(Literal::String("ssp".to_string()));
    assert_eq!(get_csr_ident(&e), "ssp");
}

#[test]
fn csrs_of_the_target_file_in_order() {
    let ast = model(vec![
        arm("model/riscv_zicfiss.sail", "000000010001", "ssp"),
        arm("model/riscv_csr_begin.sail", "000000000001", "fflags"),
        arm("/abs/model/riscv_zicfiss.sail", "000000010010", "ssp2"),
    ]);
    let csrs = get_csrs_definition(&ast, "riscv_zicfiss.sail");
    assert_eq!(csrs.len(), 2);
    assert_eq!(csrs[0].name(), "ssp");
    assert_eq!(csrs[0].number(), 0x11);
    assert_eq!(csrs[1].name(), "ssp2");
    assert_eq!(csrs[1].number(), 0x12);
    let others = get_csrs_definition(&ast, "riscv_csr_begin.sail");
    assert_eq!(others.len(), 1);
    assert_eq!(others[0].name(), "fflags");
    assert!(get_csrs_definition(&ast, "riscv_zicfiss").is_empty());
}

#[test]
fn try_csrs_refuses_unreadable_models() {
    let ast = model(vec![arm("model/riscv_zicfiss.sail", "000000010001", "ssp")]);
    assert_eq!(try_get_csrs_definition(&ast, "riscv_zicfiss.sail").map(|v| v.len()), Some(1));
    // No mapping at all.
    let none = Ast::new(vec![Definition::Other]);
    assert!(try_get_csrs_definition(&none, "riscv_zicfiss.sail").is_none());
    // A pattern with no source range.
    let mut unknown = arm("model/riscv_zicfiss.sail", "1", "x");
    if let PatternMatch::When(p, _, _) = &mut unknown {
        p.location = Location::Unknown;
    }
    assert!(try_get_csrs_definition(&model(vec![unknown]), "riscv_zicfiss.sail").is_none());
    // A name that is not a string in the target file.
    let bad = PatternMatch::When(
        Pattern {
            inner: PatternAux::Identifier(ident("b__0")),
            location: Location::Range("riscv_zicfiss.sail".to_string()),
        },
        eq_bits("1"),
        Expression::Other,
    );
    assert!(try_get_csrs_definition(&model(vec![bad]), "riscv_zicfiss.sail").is_none());
    // The same arm in another file is not read.
    let elsewhere = PatternMatch::When(
        Pattern {
            inner: PatternAux::Identifier(ident("b__0")),
            location: Location::Range("other.sail".to_string()),
        },
        eq_bits("1"),
        Expression::Other,
    );
    assert_eq!(
        try_get_csrs_definition(&model(vec![elsewhere]), "riscv_zicfiss.sail").map(|v| v.len()),
        Some(0)
    );
    // A function definition without clauses before the mapping.
    let no_clause = Ast::new(vec![Definition::Function(vec![])]);
    assert!(try_get_csrs_definition(&no_clause, "riscv_zicfiss.sail").is_none());
}
