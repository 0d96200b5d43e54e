use ozora::jib_util::{
    get_ast_node, list_inst, node_in_target_file, try_list_inst, try_node_in_target_file, JibDefinition,
    JibDefinitionAux, JibTypeDefinition, JibUnionEntry,
};
use ozora::sail_ast::{Identifier, Location};

fn ident(s: &str) -> Identifier {
    Identifier::Identifier(s.to_string())
}

fn entry(name: &str, location: Location) -> JibUnionEntry {
    JibUnionEntry { ident: ident(name), location, ctyp: "%unit".to_string() }
}

fn in_path(path: &str) -> Location {
    Location::Range(path.to_string())
}

fn def(attrs: Vec<Location>, def: JibDefinitionAux) -> JibDefinition {
    JibDefinition { attrs, def }
}

fn union_def(name: Identifier, entries: Vec<JibUnionEntry>) -> JibDefinition {
    def(vec![], JibDefinitionAux::Type(JibTypeDefinition::Variant(name, entries)))
}

fn ast_union(entries: Vec<JibUnionEntry>) -> JibDefinition {
    union_def(ident("ast"), entries)
}

fn generated_from(path: &str) -> Vec<Location> {
    vec![Location::Generated(Box::new(in_path(path)))]
}

#[test]
fn ast_node_is_the_first_union_named_ast() {
    let jib = vec![
        def(vec![], JibDefinitionAux::Let),
        union_def(ident("other"), vec![]),
        def(vec![], JibDefinitionAux::Type(JibTypeDefinition::Other)),
        ast_union(vec![entry("FIRST", Location::Unknown)]),
        ast_union(vec![entry("SECOND", Location::Unknown)]),
    ];
    match get_ast_node(&jib) {
        Ok(JibDefinition { def: JibDefinitionAux::Type(JibTypeDefinition::Variant(_, list)), .. }) => {
            assert_eq!(list.len(), 1);
            assert!(matches!(&list[0].ident, Identifier::Identifier(s) if s == "FIRST"));
        }
        _ => panic!("the ast union was not found"),
    }
}

#[test]
fn no_ast_node() {
    let jib = vec![def(vec![], JibDefinitionAux::Startup), union_def(Identifier::Operator("ast".to_string()), vec![])];
    assert!(get_ast_node(&jib).is_err());
    assert!(get_ast_node(&vec![]).is_err());
}

#[test]
fn instructions_of_the_target_file_in_order() {
    let node = ast_union(vec![
        entry("SSPUSH", in_path("model/riscv_zicfiss.sail")),
        entry("ADD", in_path("model/riscv_insts_base.sail")),
        entry("GEN", Location::Generated(Box::new(in_path("riscv_zicfiss.sail")))),
        entry("SSPOPCHK", in_path("riscv_zicfiss.sail")),
    ]);
    let listed = list_inst(&node, "riscv_zicfiss.sail");
    let names: Vec<String> = listed
        .iter()
        .map(|e| match &e.ident {
            Identifier::Identifier(s) => s.clone(),
            Identifier::Operator(s) => s.clone(),
        })
        .collect();
    assert_eq!(names, vec!["SSPUSH".to_string(), "SSPOPCHK".to_string()]);
    assert!(list_inst(&node, "model/riscv_zicfiss.sail").is_empty());
    assert!(list_inst(&def(vec![], JibDefinitionAux::Pragma), "riscv_zicfiss.sail").is_empty());
}

#[test]
fn listing_needs_file_names() {
    let node = ast_union(vec![entry("A", in_path("a.sail")), entry("B", in_path(".."))]);
    assert!(try_list_inst(&node, "a.sail").is_none());
    let good = ast_union(vec![entry("A", in_path("dir/a.sail"))]);
    assert_eq!(try_list_inst(&good, "a.sail").map(|v| v.len()), Some(1));
}

#[test]
fn nodes_generated_from_the_target_file() {
    let jib = vec![
        def(generated_from("model/riscv_zicfiss.sail"), JibDefinitionAux::Register(ident("ssp"))),
        def(generated_from("model/riscv_base.sail"), JibDefinitionAux::Let),
        def(vec![in_path("model/riscv_zicfiss.sail")], JibDefinitionAux::Val(ident("v"))),
        def(vec![], JibDefinitionAux::Finish),
        def(
            vec![Location::Generated(Box::new(Location::Unknown)), in_path("riscv_zicfiss.sail")],
            JibDefinitionAux::Startup,
        ),
        def(generated_from("riscv_zicfiss.sail"), JibDefinitionAux::Fundef(ident("f"))),
        def(generated_from("x/riscv_zicfiss.sail"), JibDefinitionAux::Type(JibTypeDefinition::Other)),
    ];
    assert_eq!(node_in_target_file(&jib, "riscv_zicfiss.sail"), vec![0, 5, 6]);
    assert_eq!(try_node_in_target_file(&jib, "riscv_zicfiss.sail"), Some(vec![0, 5, 6]));
    assert_eq!(node_in_target_file(&jib, "riscv_other.sail"), Vec::<usize>::new());
}

#[test]
fn generated_nodes_of_a_kind_not_shown_are_refused() {
    let jib = vec![def(generated_from("riscv_zicfiss.sail"), JibDefinitionAux::Let)];
    assert_eq!(try_node_in_target_file(&jib, "riscv_zicfiss.sail"), None);
    assert_eq!(try_node_in_target_file(&jib, "other.sail"), Some(vec![]));
    let nameless = vec![def(generated_from(".."), JibDefinitionAux::Register(ident("r")))];
    assert_eq!(try_node_in_target_file(&nameless, "other.sail"), None);
}
