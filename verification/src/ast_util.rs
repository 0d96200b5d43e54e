//! Queries on a Sail abstract syntax tree.

pub mod csrs;
pub mod instruction;

use vstd::prelude::*;

use crate::sail_ast::{is_named, Definition, FunctionClause, Identifier, Location};
use crate::search::{first_match, lemma_first_match_skip};
use crate::text::same_text;

verus! {

/// A `union` definition named `ast`.
pub open spec fn is_ast_variant(d: Definition) -> bool {
    d matches Definition::Variant(id, _) && is_named(id, "ast"@)
}

/// A function definition whose first clause is named `name`.
pub open spec fn is_function_named(d: Definition, name: Seq<char>) -> bool {
    d matches Definition::Function(clauses) && clauses@.len() > 0 && is_named(
        clauses@[0].identifier,
        name,
    )
}

/// An enumeration definition named `name`.
pub open spec fn is_enum_named(d: Definition, name: Seq<char>) -> bool {
    d matches Definition::Enumeration(id, _) && is_named(id, name)
}

/// The predicate of [`is_ast_variant`].
pub open spec fn ast_pred() -> spec_fn(Definition) -> bool {
    |d: Definition| is_ast_variant(d)
}

/// The predicate of [`is_function_named`].
pub open spec fn function_pred(name: Seq<char>) -> spec_fn(Definition) -> bool {
    |d: Definition| is_function_named(d, name)
}

/// The predicate of [`is_enum_named`].
pub open spec fn enum_pred(name: Seq<char>) -> spec_fn(Definition) -> bool {
    |d: Definition| is_enum_named(d, name)
}

/// Every function definition up to the first one named `name` has a clause.
pub open spec fn clauses_present_until(defs: Seq<Definition>, name: Seq<char>) -> bool {
    forall|i: int|
        #![trigger defs[i]]
        0 <= i < defs.len() && (forall|j: int| 0 <= j < i ==> !is_function_named(#[trigger] defs[j], name))
            && defs[i] is Function ==> defs[i]->Function_0@.len() > 0
}

/// The first clause of the first function definition named `name`.
pub open spec fn spec_function_node(defs: Seq<Definition>, name: Seq<char>) -> Option<FunctionClause> {
    match first_match(defs, function_pred(name)) {
        Some(Definition::Function(clauses)) => Some(clauses@[0]),
        _ => None,
    }
}

/// The variants of the first enumeration definition named `name`.
pub open spec fn spec_enum_variants(defs: Seq<Definition>, ident: Identifier) -> Option<Seq<Identifier>> {
    match ident {
        Identifier::Identifier(name) => match first_match(defs, enum_pred(name@)) {
            Some(Definition::Enumeration(_, variants)) => Some(variants@),
            _ => None,
        },
        Identifier::Operator(_) => None,
    }
}

/// A Sail abstract syntax tree: its top-level definitions, in order.
pub struct Ast(pub Vec<Definition>);

impl Ast {
    /// Creates an abstract syntax tree from its definitions.
    pub fn new(defs: Vec<Definition>) -> (r: Self)
        ensures
            r.0@ == defs@,
    {
        Self(defs)
    }

    /// The definition of the `ast` union: the first union named `ast`.
    pub fn get_ast_node(&self) -> (r: Result<&Definition, ()>)
        ensures
            match r {
                Ok(d) => first_match(self.0@, ast_pred()) == Some(*d),
                Err(_) => first_match(self.0@, ast_pred()) is None,
            },
    {
        let ghost p = ast_pred();
        let mut i: usize = 0;
        while i < self.0.len()
            invariant
                i <= self.0@.len(),
                p == ast_pred(),
                forall|j: int| 0 <= j < i ==> !is_ast_variant(#[trigger] self.0@[j]),
            decreases self.0@.len() - i,
        {
            let def = &self.0[i];
            if let Definition::Variant(ident, _) = def {
                if let Identifier::Identifier(ident_str) = ident {
                    if same_text(ident_str.as_str(), "ast") {
                        assert(is_ast_variant(self.0@[i as int]));
                        proof {
                            lemma_first_match_skip(self.0@, p, i as int);
                        }
                        return Ok(def);
                    }
                }
            }
            i = i + 1;
        }
        proof {
            lemma_first_match_skip(self.0@, p, i as int);
        }
        Err(())
    }

    /// The first clause of the first function whose first clause is named `name`.
    fn get_function_node(&self, name: &str) -> (r: Result<&FunctionClause, ()>)
        requires
            clauses_present_until(self.0@, name@),
        ensures
            match r {
                Ok(c) => spec_function_node(self.0@, name@) == Some(*c),
                Err(_) => spec_function_node(self.0@, name@) is None,
            },
    {
        let ghost p = function_pred(name@);
        let mut i: usize = 0;
        while i < self.0.len()
            invariant
                i <= self.0@.len(),
                clauses_present_until(self.0@, name@),
                p == function_pred(name@),
                forall|j: int| 0 <= j < i ==> !is_function_named(#[trigger] self.0@[j], name@),
            decreases self.0@.len() - i,
        {
            let def = &self.0[i];
            if let Definition::Function(clauses) = def {
                assert(self.0@[i as int] is Function);
                assert(clauses@.len() > 0);
                let func_clause = &clauses[0];
                if let Identifier::Identifier(ident) = &func_clause.identifier {
                    if same_text(ident.as_str(), name) {
                        assert(is_function_named(self.0@[i as int], name@));
                        proof {
                            lemma_first_match_skip(self.0@, p, i as int);
                        }
                        return Ok(func_clause);
                    }
                }
            }
            i = i + 1;
        }
        proof {
            lemma_first_match_skip(self.0@, p, i as int);
        }
        Err(())
    }

    /// The first clause of the `csr_name_map_forwards` function.
    pub fn get_csrs_forward_node(&self) -> (r: Result<&FunctionClause, ()>)
        requires
            clauses_present_until(self.0@, "csr_name_map_forwards"@),
        ensures
            match r {
                Ok(c) => spec_function_node(self.0@, "csr_name_map_forwards"@) == Some(*c),
                Err(_) => spec_function_node(self.0@, "csr_name_map_forwards"@) is None,
            },
    {
        self.get_function_node("csr_name_map_forwards")
    }

    /// The first clause of the `encdec_forwards` function.
    pub fn get_encdec_forward_node(&self) -> (r: Result<&FunctionClause, ()>)
        requires
            clauses_present_until(self.0@, "encdec_forwards"@),
        ensures
            match r {
                Ok(c) => spec_function_node(self.0@, "encdec_forwards"@) == Some(*c),
                Err(_) => spec_function_node(self.0@, "encdec_forwards"@) is None,
            },
    {
        self.get_function_node("encdec_forwards")
    }

    /// The first enumeration named as `ident_name`; none for an operator name.
    fn find_enum(&self, ident_name: &Identifier) -> (r: Option<&Definition>)
        ensures
            match ident_name {
                Identifier::Identifier(name) => match r {
                    Some(d) => first_match(self.0@, enum_pred(name@)) == Some(*d),
                    None => first_match(self.0@, enum_pred(name@)) is None,
                },
                Identifier::Operator(_) => r is None,
            },
    {
        if let Identifier::Identifier(name_str) = ident_name {
            let ghost p = enum_pred(name_str@);
            let mut i: usize = 0;
            while i < self.0.len()
                invariant
                    i <= self.0@.len(),
                    p == enum_pred(name_str@),
                    *ident_name == Identifier::Identifier(*name_str),
                    forall|j: int| 0 <= j < i ==> !is_enum_named(#[trigger] self.0@[j], name_str@),
                decreases self.0@.len() - i,
            {
                let def = &self.0[i];
                if let Definition::Enumeration(ident, _) = def {
                    if let Identifier::Identifier(ident_str) = ident {
                        if same_text(ident_str.as_str(), name_str.as_str()) {
                            assert(is_enum_named(self.0@[i as int], name_str@));
                            proof {
                                lemma_first_match_skip(self.0@, p, i as int);
                            }
                            return Some(def);
                        }
                    }
                }
                i = i + 1;
            }
            proof {
                lemma_first_match_skip(self.0@, p, i as int);
            }
        }
        None
    }

    /// The variants of the first enumeration named as `ident_name`.
    pub fn get_enum_variants(&self, ident_name: &Identifier) -> (r: Option<&Vec<Identifier>>)
        ensures
            match r {
                Some(v) => spec_enum_variants(self.0@, *ident_name) == Some(v@),
                None => spec_enum_variants(self.0@, *ident_name) is None,
            },
    {
        let found_enum = self.find_enum(ident_name)?;
        if let Definition::Enumeration(_ident, list) = found_enum {
            Some(list)
        } else {
            None
        }
    }
}

/// The name held by an identifier that is a plain name.
pub fn unwrap_ident(ident: &Identifier) -> (r: &String)
    requires
        ident is Identifier,
    ensures
        *ident == Identifier::Identifier(*r),
{
    match ident {
        Identifier::Identifier(s) => s,
        Identifier::Operator(_) => {
            proof {
                assert(false);
            }
            unreached()
        },
    }
}

/// What `std::path::Path::file_name` gives for the path `path`: its last
/// component, or none where the path ends in `..` or has no component.
pub uninterp spec fn spec_file_name(path: Seq<char>) -> Option<Seq<char>>;

/// A path of one plain component: not empty, not `.` or `..`, and without
/// a character that separates components or starts a prefix on any target.
pub open spec fn single_component(path: Seq<char>) -> bool {
    &&& path.len() > 0
    &&& path != "."@
    &&& path != ".."@
    &&& forall|i: int| 0 <= i < path.len() ==> #[trigger] path[i] != '/' && path[i] != '\\' && path[i] != ':'
}

/// Calls `std::path::Path::file_name` on `path` and hands the component back
/// as text. Its contract claims that the result is [`spec_file_name`] of the
/// path, that a name never holds `/`, and that a path of one plain component
/// is its own name; nothing more is stated of which name a path has.
#[verifier::external_body]
fn path_file_name(path: &str) -> (r: Option<String>)
    ensures
        match r {
            Some(name) => spec_file_name(path@) == Some(name@),
            None => spec_file_name(path@) is None,
        },
        r is Some ==> !r->Some_0@.contains('/'),
        single_component(path@) ==> r is Some && r->Some_0@ == path@,
{
    match std::path::Path::new(path).file_name() {
        Some(name) => Some(name.to_string_lossy().into_owned()),
        None => None,
    }
}

/// A location in a file whose path has a file name.
pub open spec fn has_file_name(location: Location) -> bool {
    location matches Location::Range(path) && spec_file_name(path@) is Some
}

/// A location in a file named `target_file_name`.
pub open spec fn in_file(location: Location, target_file_name: Seq<char>) -> bool {
    location matches Location::Range(path) && spec_file_name(path@) == Some(target_file_name)
}

/// Whether a location lies in a source range of a path that has a file name.
pub(crate) fn location_has_file_name(location: &Location) -> (r: bool)
    ensures
        r == has_file_name(*location),
{
    match location {
        Location::Range(path) => path_file_name(path.as_str()).is_some(),
        _ => false,
    }
}

/// Whether every function definition up to the first one named `name` has a clause.
pub(crate) fn clauses_present_check(ast: &Ast, name: &str) -> (r: bool)
    ensures
        r == clauses_present_until(ast.0@, name@),
{
    let mut i: usize = 0;
    while i < ast.0.len()
        invariant
            i <= ast.0@.len(),
            forall|j: int| 0 <= j < i ==> !is_function_named(#[trigger] ast.0@[j], name@),
            forall|j: int| 0 <= j < i ==> (#[trigger] ast.0@[j] is Function ==> ast.0@[j]->Function_0@.len() > 0),
        decreases ast.0@.len() - i,
    {
        if let Definition::Function(clauses) = &ast.0[i] {
            if clauses.len() == 0 {
                assert(!clauses_present_until(ast.0@, name@)) by {
                    assert(ast.0@[i as int] is Function);
                }
                return false;
            }
            if let Identifier::Identifier(ident) = &clauses[0].identifier {
                if same_text(ident.as_str(), name) {
                    assert(is_function_named(ast.0@[i as int], name@));
                    assert forall|k: int|
                        #![trigger ast.0@[k]]
                        0 <= k < ast.0@.len() && (forall|j: int|
                            0 <= j < k ==> !is_function_named(#[trigger] ast.0@[j], name@))
                            && ast.0@[k] is Function implies ast.0@[k]->Function_0@.len() > 0 by {
                        if k > i {
                            assert(!is_function_named(ast.0@[i as int], name@));
                        }
                    }
                    return true;
                }
            }
        }
        i = i + 1;
    }
    true
}

/// Whether a location lies in the file named `target_file_name`.
pub(crate) fn check_defined_location(location: &Location, target_file_name: &str) -> (r: bool)
    requires
        has_file_name(*location),
    ensures
        r == in_file(*location, target_file_name@),
{
    match location {
        Location::Range(path) => {
            let contain_file = path_file_name(path.as_str());
            match contain_file {
                Some(name) => same_text(name.as_str(), target_file_name),
                None => false,
            }
        },
        _ => false,
    }
}

} // verus!
