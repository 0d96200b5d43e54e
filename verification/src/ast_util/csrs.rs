//! CSR definitions read from the `csr_name_map` mapping of a Sail model.

use vstd::prelude::*;

use crate::ast_util::instruction::{all_bit_literals, bit_vector_value, bits_value, is_bit_literal};
use crate::sail_ast::Identifier;
use crate::text::same_text;
use crate::ast_util::{
    check_defined_location, clauses_present_check, clauses_present_until, location_has_file_name, has_file_name, in_file, spec_function_node, Ast,
};
use crate::sail_ast::{is_named, Expression, Literal, PatternMatch};
use crate::search::lemma_filter_map_as_filter;

verus! {

/// CSR number
#[derive(Debug)]
pub struct CsrNumber(pub u32);

/// CSR data
#[derive(Debug)]
pub struct Csr {
    /// CSR name
    pub name: String,
    /// CSR number
    pub number: CsrNumber,
}

impl Csr {
    /// CSR name
    pub fn name(&self) -> (r: &String)
        ensures
            *r == self.name,
    {
        &self.name
    }

    /// CSR number
    pub fn number(&self) -> (r: u32)
        ensures
            r == self.number.0,
    {
        self.number.0
    }
}

/// A comparison `eq_bits(_, 0b...)` with a vector of bit literals.
pub open spec fn csr_number_ok(e: Expression) -> bool {
    match e {
        Expression::Application(ident, args) => is_named(ident, "eq_bits"@) && args@.len() == 2 && (
        match args@[1] {
            Expression::Vector(v) => all_bit_literals(v@),
            _ => false,
        }),
        _ => false,
    }
}

/// The number that the bit vector of `eq_bits(_, 0b...)` spells.
pub open spec fn spec_csr_number(e: Expression) -> u32 {
    match e {
        Expression::Application(_, args) => match args@[1] {
            Expression::Vector(v) => bits_value(v@) as u32,
            _ => 0,
        },
        _ => 0,
    }
}

/// Get csr number: the value of the bit vector that the guard compares with.
pub fn get_csr_number(csr_num: &Expression) -> (r: CsrNumber)
    requires
        csr_number_ok(*csr_num),
    ensures
        r.0 == spec_csr_number(*csr_num),
{
    if let Expression::Application(_ident, def_tuple) = csr_num {
        if let Expression::Vector(bit_vec) = &def_tuple[1] {
            return CsrNumber(bit_vector_value(bit_vec));
        }
    }
    proof {
        assert(false);
    }
    unreached()
}

/// A string literal.
pub open spec fn csr_ident_ok(e: Expression) -> bool {
    e matches Expression::Literal(Literal::String(_))
}

/// Get csr name: the text of a string literal.
pub fn get_csr_ident(csr_name: &Expression) -> (r: String)
    requires
        csr_ident_ok(*csr_name),
    ensures
        *csr_name == Expression::Literal(Literal::String(r)),
{
    if let Expression::Literal(Literal::String(name)) = csr_name {
        return name.clone();
    }
    proof {
        assert(false);
    }
    unreached()
}

/// The CSR that an arm `id if eq_bits(id, 0b...) => "name"` gives when its
/// pattern is written in the file `target`.
pub open spec fn spec_csr_arm(arm: PatternMatch, target: Seq<char>) -> Option<Csr> {
    match arm {
        PatternMatch::When(pat_id, csr_num, csr_ident) => if in_file(pat_id.location, target) {
            Some(
                Csr {
                    name: csr_ident->Literal_0->String_0,
                    number: CsrNumber(spec_csr_number(csr_num)),
                },
            )
        } else {
            None
        },
        _ => None,
    }
}

/// An arm of the CSR mapping can be read: its pattern names a file and, where
/// that is `target`, its guard and its name can be read.
pub open spec fn csr_arm_ok(arm: PatternMatch, target: Seq<char>) -> bool {
    match arm {
        PatternMatch::When(pat_id, csr_num, csr_ident) => {
            &&& has_file_name(pat_id.location)
            &&& in_file(pat_id.location, target) ==> csr_number_ok(csr_num) && csr_ident_ok(csr_ident)
        },
        _ => true,
    }
}

/// The arms of the match in the first clause of `csr_name_map_forwards`.
pub open spec fn csr_arms(defs: Seq<crate::sail_ast::Definition>) -> Seq<PatternMatch> {
    match spec_function_node(defs, "csr_name_map_forwards"@) {
        Some(c) => match c.pattern_match {
            PatternMatch::Expression(_, Expression::Match(_, arms)) => arms@,
            _ => Seq::empty(),
        },
        None => Seq::empty(),
    }
}

/// The CSR mapping of a model can be read for the file `target`.
pub open spec fn csrs_definition_ok(defs: Seq<crate::sail_ast::Definition>, target: Seq<char>) -> bool {
    &&& clauses_present_until(defs, "csr_name_map_forwards"@)
    &&& spec_function_node(defs, "csr_name_map_forwards"@) is Some
    &&& forall|i: int| 0 <= i < csr_arms(defs).len() ==> csr_arm_ok(#[trigger] csr_arms(defs)[i], target)
}

/// The CSRs that the file `target` defines, in the order of the mapping's arms.
pub open spec fn spec_csrs_definition(defs: Seq<crate::sail_ast::Definition>, target: Seq<char>) -> Seq<Csr> {
    csr_arms(defs).filter_map(|a: PatternMatch| spec_csr_arm(a, target))
}

/// Get CSRs definitions: one for each arm of the CSR mapping whose pattern is
/// written in the file `target_file_name`.
pub fn get_csrs_definition(ast: &Ast, target_file_name: &str) -> (r: Vec<Csr>)
    requires
        csrs_definition_ok(ast.0@, target_file_name@),
    ensures
        r@ == spec_csrs_definition(ast.0@, target_file_name@),
{
    let mut csrs: Vec<Csr> = Vec::new();
    let csrs_node = match ast.get_csrs_forward_node() {
        Ok(node) => node,
        Err(_) => {
            proof {
                assert(false);
            }
            unreached()
        },
    };
    if let PatternMatch::Expression(_pat, exp) = &csrs_node.pattern_match {
        if let Expression::Match(_exp, pat_list) = exp {
            let ghost arms = csr_arms(ast.0@);
            assert(arms == pat_list@);
            let ghost f = |a: PatternMatch| spec_csr_arm(a, target_file_name@);
            let mut i: usize = 0;
            while i < pat_list.len()
                invariant
                    i <= pat_list@.len(),
                    arms == pat_list@,
                    arms == csr_arms(ast.0@),
                    csrs_definition_ok(ast.0@, target_file_name@),
                    f == (|a: PatternMatch| spec_csr_arm(a, target_file_name@)),
                    csrs@ == arms.take(i as int).filter_map(f),
                decreases pat_list@.len() - i,
            {
                proof {
                    arms.lemma_filter_map_take_succ(f, i as int);
                }
                assert(csr_arm_ok(arms[i as int], target_file_name@));
                // pat_id: "b__0"
                // csr_num: "b__0" = 0bxxxx_xxxx_xxxx (12 bits)
                // csr_ident: "fflags"
                if let PatternMatch::When(pat_id, csr_num, csr_ident) = &pat_list[i] {
                    if check_defined_location(&pat_id.location, target_file_name) {
                        csrs.push(Csr { name: get_csr_ident(csr_ident), number: get_csr_number(csr_num) });
                    }
                }
                i = i + 1;
            }
            assert(arms.take(i as int) =~= arms);
        }
    }
    csrs
}

/// Whether an expression is `eq_bits(_, 0b...)` with a vector of bit literals.
#[verifier::loop_isolation(false)]
fn csr_number_check(e: &Expression) -> (r: bool)
    ensures
        r == csr_number_ok(*e),
{
    if let Expression::Application(ident, args) = e {
        let named = match ident {
            Identifier::Identifier(n) => same_text(n.as_str(), "eq_bits"),
            Identifier::Operator(_) => false,
        };
        if !named || args.len() != 2 {
            return false;
        }
        if let Expression::Vector(v) = &args[1] {
            let mut i: usize = 0;
            while i < v.len()
                invariant
                    i <= v@.len(),
                    forall|j: int| 0 <= j < i ==> is_bit_literal(#[trigger] v@[j]),
                decreases v@.len() - i,
            {
                match &v[i] {
                    Expression::Literal(Literal::Zero) | Expression::Literal(Literal::True) => {},
                    _ => {
                        assert(!is_bit_literal(v@[i as int]));
                        return false;
                    },
                }
                i = i + 1;
            }
            return true;
        }
    }
    false
}

/// Get CSRs definitions, or none where the model's CSR mapping cannot be
/// read for the file `target_file_name` (where reading it would fail).
pub fn try_get_csrs_definition(ast: &Ast, target_file_name: &str) -> (r: Option<Vec<Csr>>)
    ensures
        match r {
            Some(v) => csrs_definition_ok(ast.0@, target_file_name@) && v@ == spec_csrs_definition(
                ast.0@,
                target_file_name@,
            ),
            None => !csrs_definition_ok(ast.0@, target_file_name@),
        },
{
    if !clauses_present_check(ast, "csr_name_map_forwards") {
        return None;
    }
    let csrs_node = match ast.get_csrs_forward_node() {
        Ok(node) => node,
        Err(_) => {
            return None;
        },
    };
    if let PatternMatch::Expression(_pat, exp) = &csrs_node.pattern_match {
        if let Expression::Match(_exp, pat_list) = exp {
            let ghost arms = csr_arms(ast.0@);
            assert(arms == pat_list@);
            let mut i: usize = 0;
            while i < pat_list.len()
                invariant
                    i <= pat_list@.len(),
                    arms == pat_list@,
                    arms == csr_arms(ast.0@),
                    forall|j: int| 0 <= j < i ==> csr_arm_ok(#[trigger] arms[j], target_file_name@),
                decreases pat_list@.len() - i,
            {
                if let PatternMatch::When(pat_id, csr_num, csr_ident) = &pat_list[i] {
                    if !location_has_file_name(&pat_id.location) {
                        return None;
                    }
                    if check_defined_location(&pat_id.location, target_file_name) {
                        let ident_ok = match csr_ident {
                            Expression::Literal(Literal::String(_)) => true,
                            _ => false,
                        };
                        if !csr_number_check(csr_num) || !ident_ok {
                            return None;
                        }
                    }
                }
                i = i + 1;
            }
        }
    }
    Some(get_csrs_definition(ast, target_file_name))
}

/// An arm of the CSR mapping whose pattern is written in the file `target`.
pub open spec fn csr_arm_in_file(arm: PatternMatch, target: Seq<char>) -> bool {
    arm matches PatternMatch::When(pat, _, _) && in_file(pat.location, target)
}

/// The CSRs of a file are read from its arms of the mapping, one for each
/// arm in order: the `k`-th CSR is named by the string of the `k`-th arm
/// written in the file, and its number is the guard's bit vector read most
/// significant bit first, every bit of it (kept to 32 bits).
pub proof fn lemma_csrs_read_their_guards(defs: Seq<crate::sail_ast::Definition>, target: Seq<char>)
    requires
        csrs_definition_ok(defs, target),
    ensures
        spec_csrs_definition(defs, target).len() == csr_arms(defs).filter(|a: PatternMatch| csr_arm_in_file(a, target)).len(),
        forall|k: int|
            0 <= k < spec_csrs_definition(defs, target).len() ==> {
                let arm = csr_arms(defs).filter(|a: PatternMatch| csr_arm_in_file(a, target))[k];
                &&& arm matches PatternMatch::When(_, Expression::Application(_, args), Expression::Literal(Literal::String(name)))
                &&& (#[trigger] spec_csrs_definition(defs, target)[k]).name == name
                &&& spec_csrs_definition(defs, target)[k].number.0 == bits_value(args@[1]->Vector_0@) as u32
            },
{
    let arms = csr_arms(defs);
    let f = |a: PatternMatch| spec_csr_arm(a, target);
    let p = |a: PatternMatch| csr_arm_in_file(a, target);
    assert forall|a: PatternMatch| #[trigger] f(a) is Some <==> p(a) by {}
    lemma_filter_map_as_filter(arms, f, p);
    let kept = arms.filter(p);
    assert forall|k: int| 0 <= k < spec_csrs_definition(defs, target).len() implies {
        let arm = kept[k];
        &&& arm matches PatternMatch::When(_, Expression::Application(_, args), Expression::Literal(Literal::String(name)))
        &&& (#[trigger] spec_csrs_definition(defs, target)[k]).name == name
        &&& spec_csrs_definition(defs, target)[k].number.0 == bits_value(args@[1]->Vector_0@) as u32
    } by {
        let arm = kept[k];
        assert(f(arm) == Some(spec_csrs_definition(defs, target)[k]));
        assert(arms.contains(arm));
        let i = choose|i: int| 0 <= i < arms.len() && arms[i] == arm;
        assert(csr_arm_ok(arms[i], target));
    }
}

} // verus!
