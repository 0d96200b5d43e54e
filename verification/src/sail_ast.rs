//! The part of a Sail abstract syntax tree that the extraction reads.
//!
//! Each type holds, as plain values, what the extraction looks at: names,
//! source locations, literals and the shape of expressions, patterns and types.

use vstd::prelude::*;

verus! {

/// An identifier: a plain name, or an operator name.
#[derive(Debug, Clone)]
pub enum Identifier {
    Identifier(String),
    Operator(String),
}

/// Where a node was defined: a range in a source file (by the file's path),
/// a node generated from another location, or one of the locations that
/// carry no file.
#[derive(Debug)]
pub enum Location {
    Range(String),
    Generated(Box<Location>),
    Unique,
    Hint,
    Unknown,
}

/// A literal.
#[derive(Debug, Clone)]
pub enum Literal {
    Unit,
    Zero,
    One,
    True,
    False,
    Num(i64),
    String(String),
    Other,
}

/// A numeric expression of a type.
#[derive(Debug, Clone)]
pub enum NumericExpression {
    Constant(i64),
    Other,
}

/// An argument of a type application.
#[derive(Debug, Clone)]
pub enum TypArg {
    NExp(NumericExpression),
    Other,
}

/// A type.
#[derive(Debug)]
pub enum Typ {
    Id(Identifier),
    Application(Identifier, Vec<TypArg>),
    Tuple(Vec<Typ>),
    Other,
}

/// A pattern with the location it was written at.
#[derive(Debug)]
pub struct Pattern {
    pub inner: PatternAux,
    pub location: Location,
}

/// The shape of a pattern.
#[derive(Debug)]
pub enum PatternAux {
    Identifier(Identifier),
    Tuple(Vec<Pattern>),
    Application(Identifier, Vec<Pattern>),
    Literal(Literal),
    Other,
}

/// An expression.
#[derive(Debug)]
pub enum Expression {
    Application(Identifier, Vec<Expression>),
    Vector(Vec<Expression>),
    Literal(Literal),
    Cast(Typ, Box<Expression>),
    Identifier(Identifier),
    Match(Box<Expression>, Vec<PatternMatch>),
    Other,
}

/// One arm of a match: `pattern => expression`, or
/// `pattern if guard => expression`.
#[derive(Debug)]
pub enum PatternMatch {
    Expression(Pattern, Expression),
    When(Pattern, Expression, Expression),
}

/// A clause of a function definition.
#[derive(Debug)]
pub struct FunctionClause {
    pub identifier: Identifier,
    pub pattern_match: PatternMatch,
}

/// One constructor of a union type, with its argument type.
#[derive(Debug)]
pub struct TypeUnion {
    pub id: Identifier,
    pub typ: Typ,
    pub location: Location,
}

/// A top-level definition.
#[derive(Debug)]
pub enum Definition {
    /// A union type (`union ast = ...`).
    Variant(Identifier, Vec<TypeUnion>),
    /// An enumeration type.
    Enumeration(Identifier, Vec<Identifier>),
    /// A function, by its clauses.
    Function(Vec<FunctionClause>),
    Other,
}

/// True iff `ident` is the plain name `name`.
pub open spec fn is_named(ident: Identifier, name: Seq<char>) -> bool {
    ident matches Identifier::Identifier(s) && s@ == name
}

} // verus!
