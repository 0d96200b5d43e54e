use ozora::ast_util::instruction::{
    get_encoding_rule_lhs, get_insns_in_target_file, InstType,
};
use ozora::ast_util::{unwrap_ident, Ast};
use ozora::sail_ast::{
    Definition, Expression, FunctionClause, Identifier, Location, Pattern, PatternAux,
    PatternMatch, Typ, TypeUnion,
};

fn ident(s: &str) -> Identifier {
    Identifier::Identifier(s.to_string())
}

fn union(name: &str, args: Vec<&str>, file: &str) -> TypeUnion {
    TypeUnion {
        id: ident(name),
        typ: Typ::Tuple(args.into_iter().map(|a| Typ::Id(ident(a))).collect()),
        location: Location::Range(file.to_string()),
    }
}

fn clause(name: &str) -> Definition {
    Definition::Function(vec![FunctionClause {
        identifier: ident(name),
        pattern_match: PatternMatch::Expression(
            Pattern { inner: PatternAux::Other, location: Location::Unknown },
            Expression::Other,
        ),
    }])
}

fn model() -> Ast {
    Ast::new(vec![
        Definition::Variant(ident("option"), vec![]),
        Definition::Enumeration(ident("bop"), vec![ident("ADD_OP"), ident("SUB_OP")]),
        Definition::Variant(
            ident("ast"),
            vec![
                union("RTYPE", vec!["regidx", "regidx", "regidx", "bop"], "m/base.sail"),
                union("SSPUSH", vec!["regidx"], "m/zicfiss.sail"),
                TypeUnion { id: ident("GEN"), typ: Typ::Other, location: Location::Generated(Box::new(Location::Range("riscv_zicfiss.sail".to_string()))) },
            ],
        ),
        Definition::Variant(ident("ast"), vec![]),
        clause("encdec_forwards"),
        Definition::Enumeration(ident("bop"), vec![ident("LATER")]),
    ])
}

#[test]
fn ast_node_is_the_first_ast_union() {
    let ast = model();
    match ast.get_ast_node() {
        Ok(Definition::Variant(_, unions)) => assert_eq!(unions.len(), 3),
        _ => panic!("no ast node"),
    }
    let none = Ast::new(vec![Definition::Variant(ident("other"), vec![])]);
    assert!(none.get_ast_node().is_err());
}

#[test]
fn function_nodes_by_first_clause_name() {
    let ast = model();
    let node = ast.get_encdec_forward_node().unwrap();
    assert_eq!(unwrap_ident(&node.identifier), "encdec_forwards");
    assert!(ast.get_csrs_forward_node().is_err());
}

#[test]
fn enum_variants_of_the_first_enumeration() {
    let ast = model();
    let v = ast.get_enum_variants(&ident("bop")).unwrap();
    assert_eq!(v.len(), 2);
    assert_eq!(unwrap_ident(&v[1]), "SUB_OP");
    assert!(ast.get_enum_variants(&ident("regidx")).is_none());
    assert!(ast.get_enum_variants(&Identifier::Operator("bop".to_string())).is_none());
}

#[test]
fn inst_type_marks_the_enumeration_argument() {
    let ast = model();
    let t = InstType::new(&ast, &union("RTYPE", vec!["regidx", "regidx", "regidx", "bop"], "f"));
    assert_eq!(t.name, "RTYPE");
    assert_eq!(t.index, Some(3));
    assert_eq!(t._insts.as_ref().map(|v| v.len()), Some(2));
    let plain = InstType::new(&ast, &union("SSPUSH", vec!["regidx"], "f"));
    assert_eq!(plain.index, None);
    assert!(plain._insts.is_none());
    let not_tuple = InstType::new(
        &ast,
        &TypeUnion { id: ident("X"), typ: Typ::Id(ident("bop")), location: Location::Unknown },
    );
    assert_eq!(not_tuple.index, None);
}

#[test]
fn insns_in_target_file_by_file_name() {
    let ast = model();
    let zicfiss = get_insns_in_target_file(&ast, "zicfiss.sail");
    assert_eq!(zicfiss.len(), 1);
    assert_eq!(zicfiss[0].name, "SSPUSH");
    let base = get_insns_in_target_file(&ast, "base.sail");
    assert_eq!(base.len(), 1);
    assert_eq!(base[0].index, Some(3));
    // The directory is not part of the file name.
    assert!(get_insns_in_target_file(&ast, "m/base.sail").is_empty());
}

#[test]
fn encoding_rule_lhs_reads_the_marked_argument() {
    let ast = model();
    let t = InstType::new(&ast, &union("RTYPE", vec!["regidx", "regidx", "regidx", "bop"], "f"));
    let p = |name: &str| Pattern {
        inner: PatternAux::Identifier(ident(name)),
        location: Location::Unknown,
    };
    let pats = vec![Pattern {
        inner: PatternAux::Tuple(vec![p("rs2"), p("rs1"), p("rd"), p("ADD_OP")]),
        location: Location::Unknown,
    }];
    assert_eq!(get_encoding_rule_lhs(&ident("RTYPE"), &t, &pats), "ADD_OP");
    let plain = InstType::new(&ast, &union("SSPUSH", vec!["regidx"], "f"));
    assert_eq!(get_encoding_rule_lhs(&ident("SSPUSH"), &plain, &pats), "SSPUSH");
}
