//! Queries on the Jib intermediate form that the Sail compiler produces.
//!
//! Of a Jib definition the queries read whether it is a union type, its name,
//! and the name, location and type of each of its constructors.

use vstd::prelude::*;

use crate::ast_util::{check_defined_location, has_file_name, in_file, location_has_file_name, spec_file_name};
use crate::sail_ast::{is_named, Identifier, Location};
use crate::search::{first_match, lemma_first_match_skip};
use crate::text::same_text;

verus! {

/// One constructor of a Jib union type: its name, where it was defined, and
/// its Jib type as the compiler prints it.
#[derive(Debug)]
pub struct JibUnionEntry {
    pub ident: Identifier,
    pub location: Location,
    pub ctyp: String,
}

/// A Jib type definition.
#[derive(Debug)]
pub enum JibTypeDefinition {
    /// A union type, with its constructors in order.
    Variant(Identifier, Vec<JibUnionEntry>),
    Other,
}

/// The kind of a top-level Jib definition, with what the queries read of it.
#[derive(Debug)]
pub enum JibDefinitionAux {
    Register(Identifier),
    Type(JibTypeDefinition),
    Let,
    Val(Identifier),
    Fundef(Identifier),
    Startup,
    Finish,
    Pragma,
}

/// A top-level Jib definition: the locations of the attributes of its
/// annotation, in order, and the definition itself.
#[derive(Debug)]
pub struct JibDefinition {
    pub attrs: Vec<Location>,
    pub def: JibDefinitionAux,
}

/// A union type definition named `ast`.
pub open spec fn is_jib_ast_variant(d: JibDefinition) -> bool {
    d.def matches JibDefinitionAux::Type(JibTypeDefinition::Variant(id, _)) && is_named(id, "ast"@)
}

/// The predicate of [`is_jib_ast_variant`].
pub open spec fn jib_ast_pred() -> spec_fn(JibDefinition) -> bool {
    |d: JibDefinition| is_jib_ast_variant(d)
}

/// Get node of the `ast` union: the first union definition named `ast`.
pub fn get_ast_node(jib: &Vec<JibDefinition>) -> (r: Result<&JibDefinition, ()>)
    ensures
        match r {
            Ok(d) => first_match(jib@, jib_ast_pred()) == Some(*d),
            Err(_) => first_match(jib@, jib_ast_pred()) is None,
        },
{
    let ghost p = jib_ast_pred();
    let mut i: usize = 0;
    while i < jib.len()
        invariant
            i <= jib@.len(),
            p == jib_ast_pred(),
            forall|j: int| 0 <= j < i ==> !is_jib_ast_variant(#[trigger] jib@[j]),
        decreases jib@.len() - i,
    {
        let def = &jib[i];
        if let JibDefinitionAux::Type(JibTypeDefinition::Variant(ident, _)) = &def.def {
            if let Identifier::Identifier(ident_str) = ident {
                if same_text(ident_str.as_str(), "ast") {
                    assert(is_jib_ast_variant(jib@[i as int]));
                    proof {
                        lemma_first_match_skip(jib@, p, i as int);
                    }
                    return Ok(def);
                }
            }
        }
        i = i + 1;
    }
    proof {
        lemma_first_match_skip(jib@, p, i as int);
    }
    Err(())
}

/// Is the identifier defined at `location` in the file named `target_file_name`?
fn is_ident_in_target_file(location: &Location, target_file_name: &str) -> (r: bool)
    requires
        location is Range ==> has_file_name(*location),
    ensures
        r == in_file(*location, target_file_name@),
{
    if let Location::Range(_) = location {
        check_defined_location(location, target_file_name)
    } else {
        false
    }
}

/// The constructors of `entries` defined in the file named `target_file_name`,
/// in order.
pub open spec fn entries_in_file(entries: Seq<JibUnionEntry>, target_file_name: Seq<char>) -> Seq<JibUnionEntry>
    decreases entries.len(),
{
    if entries.len() == 0 {
        Seq::empty()
    } else {
        let rest = entries_in_file(entries.drop_last(), target_file_name);
        if in_file(entries.last().location, target_file_name) {
            rest.push(entries.last())
        } else {
            rest
        }
    }
}

/// Every constructor defined in a source range has a path with a file name.
pub open spec fn entry_files_named(entries: Seq<JibUnionEntry>) -> bool {
    forall|i: int|
        0 <= i < entries.len() ==> ((#[trigger] entries[i]).location is Range ==> has_file_name(
            entries[i].location,
        ))
}

/// The constructors of a union type definition; none for another definition.
pub open spec fn union_entries(d: JibDefinition) -> Seq<JibUnionEntry> {
    match d.def {
        JibDefinitionAux::Type(JibTypeDefinition::Variant(_, list)) => list@,
        _ => Seq::empty(),
    }
}

/// The constructors of the `ast` union that were defined in the file named
/// `target_file_name`, in order; none where `ast_node` is no union.
pub fn list_inst<'a>(ast_node: &'a JibDefinition, target_file_name: &str) -> (r: Vec<&'a JibUnionEntry>)
    requires
        entry_files_named(union_entries(*ast_node)),
    ensures
        r@.len() == entries_in_file(union_entries(*ast_node), target_file_name@).len(),
        forall|k: int|
            0 <= k < r@.len() ==> *r@[k] == entries_in_file(union_entries(*ast_node), target_file_name@)[k],
{
    let mut r: Vec<&JibUnionEntry> = Vec::new();
    if let JibDefinitionAux::Type(JibTypeDefinition::Variant(_ast_ident, list)) = &ast_node.def {
        let ghost t = target_file_name@;
        let mut i: usize = 0;
        while i < list.len()
            invariant
                i <= list@.len(),
                list@ == union_entries(*ast_node),
                entry_files_named(list@),
                t == target_file_name@,
                r@.len() == entries_in_file(list@.take(i as int), t).len(),
                forall|k: int| 0 <= k < r@.len() ==> *r@[k] == entries_in_file(list@.take(i as int), t)[k],
            decreases list@.len() - i,
        {
            assert(list@.take(i + 1).drop_last() =~= list@.take(i as int));
            let entry = &list[i];
            assert(entry.location is Range ==> has_file_name(list@[i as int].location));
            if is_ident_in_target_file(&entry.location, target_file_name) {
                r.push(entry);
            }
            i = i + 1;
        }
        assert(list@.take(i as int) =~= list@);
    }
    r
}

/// Whether every constructor of `ast_node` that was defined in a source range
/// has a path with a file name.
pub fn entry_files_check(ast_node: &JibDefinition) -> (r: bool)
    ensures
        r == entry_files_named(union_entries(*ast_node)),
{
    if let JibDefinitionAux::Type(JibTypeDefinition::Variant(_ast_ident, list)) = &ast_node.def {
        let mut i: usize = 0;
        while i < list.len()
            invariant
                i <= list@.len(),
                list@ == union_entries(*ast_node),
                forall|j: int|
                    0 <= j < i ==> ((#[trigger] list@[j]).location is Range ==> has_file_name(list@[j].location)),
            decreases list@.len() - i,
        {
            let loc = &list[i].location;
            if let Location::Range(_) = loc {
                if !location_has_file_name(loc) {
                    return false;
                }
            }
            i = i + 1;
        }
    }
    true
}

/// The constructors of `ast_node` defined in the file named
/// `target_file_name`, as [`list_inst`] gives them; none where a constructor's
/// path has no file name.
pub fn try_list_inst<'a>(ast_node: &'a JibDefinition, target_file_name: &str) -> (r: Option<Vec<&'a JibUnionEntry>>)
    ensures
        r is Some <==> entry_files_named(union_entries(*ast_node)),
        r matches Some(v) ==> v@.len() == entries_in_file(union_entries(*ast_node), target_file_name@).len()
            && forall|k: int|
            0 <= k < v@.len() ==> *v@[k] == entries_in_file(union_entries(*ast_node), target_file_name@)[k],
{
    if entry_files_check(ast_node) {
        Some(list_inst(ast_node, target_file_name))
    } else {
        None
    }
}

/// The path of the source range a definition was generated from, where the
/// first attribute of its annotation says so.
pub open spec fn generated_path(d: JibDefinition) -> Option<Seq<char>> {
    if d.attrs@.len() > 0 {
        match d.attrs@[0] {
            Location::Generated(inner) => match *inner {
                Location::Range(path) => Some(path@),
                _ => None,
            },
            _ => None,
        }
    } else {
        None
    }
}

/// A definition generated from a source range in the file named `target_file_name`.
pub open spec fn generated_in_file(d: JibDefinition, target_file_name: Seq<char>) -> bool {
    generated_path(d) matches Some(path) && spec_file_name(path) == Some(target_file_name)
}

/// A register, function or type definition: the kinds of node that are shown.
pub open spec fn is_shown_kind(d: JibDefinition) -> bool {
    d.def is Register || d.def is Fundef || d.def is Type
}

/// Every definition generated from a source range has a path with a file
/// name, and those generated from the file named `target_file_name` are of a
/// kind that is shown.
pub open spec fn generated_nodes_ok(defs: Seq<JibDefinition>, target_file_name: Seq<char>) -> bool {
    forall|i: int|
        0 <= i < defs.len() ==> (#[trigger] generated_path(defs[i]) matches Some(path) ==> spec_file_name(
            path,
        ) is Some) && (generated_in_file(defs[i], target_file_name) ==> is_shown_kind(defs[i]))
}

/// The indices, in increasing order, of the definitions of `defs` generated
/// from the file named `target_file_name`.
pub open spec fn nodes_in_file(defs: Seq<JibDefinition>, target_file_name: Seq<char>) -> Seq<int>
    decreases defs.len(),
{
    if defs.len() == 0 {
        Seq::empty()
    } else {
        let rest = nodes_in_file(defs.drop_last(), target_file_name);
        if generated_in_file(defs.last(), target_file_name) {
            rest.push(defs.len() - 1)
        } else {
            rest
        }
    }
}

/// Whether a definition was generated from the file named `target_file_name`.
fn generated_in_target(def: &JibDefinition, target_file_name: &str) -> (r: bool)
    requires
        generated_path(*def) matches Some(path) ==> spec_file_name(path) is Some,
    ensures
        r == generated_in_file(*def, target_file_name@),
{
    if def.attrs.len() == 0 {
        return false;
    }
    match &def.attrs[0] {
        Location::Generated(range) => match &**range {
            Location::Range(_) => check_defined_location(&**range, target_file_name),
            _ => false,
        },
        _ => false,
    }
}

/// Find the nodes generated from the target file: the indices of the
/// definitions of `jib` generated from the file named `target_file_name`, in
/// order. Their number is the number of such nodes.
pub fn node_in_target_file(jib: &Vec<JibDefinition>, target_file_name: &str) -> (r: Vec<usize>)
    requires
        generated_nodes_ok(jib@, target_file_name@),
    ensures
        r@.len() == nodes_in_file(jib@, target_file_name@).len(),
        forall|k: int| 0 <= k < r@.len() ==> r@[k] == nodes_in_file(jib@, target_file_name@)[k],
{
    let mut r: Vec<usize> = Vec::new();
    let mut i: usize = 0;
    while i < jib.len()
        invariant
            i <= jib@.len(),
            generated_nodes_ok(jib@, target_file_name@),
            r@.len() == nodes_in_file(jib@.take(i as int), target_file_name@).len(),
            forall|k: int| 0 <= k < r@.len() ==> r@[k] == nodes_in_file(jib@.take(i as int), target_file_name@)[k],
        decreases jib@.len() - i,
    {
        assert(jib@.take(i + 1).drop_last() =~= jib@.take(i as int));
        assert(generated_path(jib@[i as int]) matches Some(path) ==> spec_file_name(path) is Some);
        if generated_in_target(&jib[i], target_file_name) {
            r.push(i);
        }
        i = i + 1;
    }
    assert(jib@.take(i as int) =~= jib@);
    r
}

/// Whether `jib` meets what [`node_in_target_file`] needs of it.
pub fn generated_nodes_check(jib: &Vec<JibDefinition>, target_file_name: &str) -> (r: bool)
    ensures
        r == generated_nodes_ok(jib@, target_file_name@),
{
    let mut i: usize = 0;
    while i < jib.len()
        invariant
            i <= jib@.len(),
            forall|j: int|
                0 <= j < i ==> (#[trigger] generated_path(jib@[j]) matches Some(path) ==> spec_file_name(path) is Some)
                    && (generated_in_file(jib@[j], target_file_name@) ==> is_shown_kind(jib@[j])),
        decreases jib@.len() - i,
    {
        let def = &jib[i];
        if def.attrs.len() > 0 {
            if let Location::Generated(range) = &def.attrs[0] {
                if let Location::Range(_) = &**range {
                    if !location_has_file_name(&**range) {
                        assert(!generated_nodes_ok(jib@, target_file_name@)) by {
                            assert(generated_path(jib@[i as int]) is Some);
                        }
                        return false;
                    }
                    if check_defined_location(&**range, target_file_name) {
                        let shown = match &def.def {
                            JibDefinitionAux::Register(_) | JibDefinitionAux::Fundef(_) | JibDefinitionAux::Type(_) => true,
                            _ => false,
                        };
                        if !shown {
                            assert(!generated_nodes_ok(jib@, target_file_name@)) by {
                                assert(generated_in_file(jib@[i as int], target_file_name@));
                            }
                            return false;
                        }
                    }
                }
            }
        }
        assert(generated_path(jib@[i as int]) matches Some(path) ==> spec_file_name(path) is Some);
        i = i + 1;
    }
    true
}

/// The nodes generated from the target file, as [`node_in_target_file`]
/// finds them; none where `jib` does not meet what it needs.
pub fn try_node_in_target_file(jib: &Vec<JibDefinition>, target_file_name: &str) -> (r: Option<Vec<usize>>)
    ensures
        r is Some <==> generated_nodes_ok(jib@, target_file_name@),
        r matches Some(v) ==> v@.len() == nodes_in_file(jib@, target_file_name@).len() && forall|k: int|
            0 <= k < v@.len() ==> v@[k] == nodes_in_file(jib@, target_file_name@)[k],
{
    if generated_nodes_check(jib, target_file_name) {
        Some(node_in_target_file(jib, target_file_name))
    } else {
        None
    }
}

} // verus!
