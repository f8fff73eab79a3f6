//! The syntax tree of GraphQL operation documents (queries, mutations,
//! subscriptions and fragments) that the checker reads.
use vstd::prelude::*;

verus! {

/// `r` refers to the value that `s` holds, or both are empty.
pub open spec fn opt_ref_is<T>(r: Option<&T>, s: Option<T>) -> bool {
    match r {
        Some(x) => s == Some(*x),
        None => s is None,
    }
}

/// A position in a source file.
#[derive(Clone, Copy, Debug, PartialEq, Eq, Structural)]
pub struct Pos {
    pub line: usize,
    pub column: usize,
    /// Index of the file the position belongs to.
    pub file: usize,
    /// The position belongs to a definition that the library provides, not to a source file.
    pub builtin: bool,
}

/// A name together with where it was written.
#[derive(Debug)]
pub struct Ident {
    pub name: String,
    pub position: Pos,
}

/// The kind of an operation.
#[derive(Clone, Copy, Debug, PartialEq, Eq, Structural)]
pub enum OperationType {
    Query,
    Mutation,
    Subscription,
}

/// A type reference such as `[Int!]!`.
#[derive(Debug)]
pub enum Type {
    Named(Ident),
    List(Box<Type>, Pos),
    NonNull(Box<Type>, Pos),
}

impl Type {
    /// The named type at the core of a type reference.
    pub open spec fn spec_unwrapped(&self) -> Ident
        decreases self,
    {
        match self {
            Type::Named(n) => *n,
            Type::List(inner, _) => inner.spec_unwrapped(),
            Type::NonNull(inner, _) => inner.spec_unwrapped(),
        }
    }

    /// Where the type reference starts.
    pub open spec fn spec_position(&self) -> Pos {
        match self {
            Type::Named(n) => n.position,
            Type::List(_, p) => *p,
            Type::NonNull(_, p) => *p,
        }
    }

    /// The named type at the core of a type reference.
    pub fn unwrapped_type(&self) -> (r: &Ident)
        ensures
            *r == self.spec_unwrapped(),
        decreases self,
    {
        match self {
            Type::Named(n) => n,
            Type::List(inner, _) => inner.unwrapped_type(),
            Type::NonNull(inner, _) => inner.unwrapped_type(),
        }
    }

    /// Where the type reference starts.
    pub fn position(&self) -> (r: Pos)
        ensures
            r == self.spec_position(),
    {
        match self {
            Type::Named(n) => n.position,
            Type::List(_, p) => *p,
            Type::NonNull(_, p) => *p,
        }
    }
}

/// A variable reference such as `$id`; `name` is without the `$`.
#[derive(Debug)]
pub struct Variable {
    pub name: String,
    pub position: Pos,
}

/// A constant or variable value written in a document.
#[derive(Debug)]
pub enum Value {
    Variable(Variable),
    Int(String, Pos),
    Float(String, Pos),
    String(String, Pos),
    Boolean(bool, Pos),
    Null(Pos),
    Enum(String, Pos),
    List(Vec<Value>, Pos),
    Object(Vec<(Ident, Value)>, Pos),
}

/// The arguments of a field or a directive.
#[derive(Debug)]
pub struct Arguments {
    pub position: Pos,
    pub arguments: Vec<(Ident, Value)>,
}

/// A directive such as `@include(if: $flag)`.
#[derive(Debug)]
pub struct Directive {
    pub position: Pos,
    pub name: Ident,
    pub arguments: Option<Arguments>,
}

/// One variable of an operation, such as `$id: ID! = 1`.
#[derive(Debug)]
pub struct VariableDefinition {
    pub pos: Pos,
    pub name: Variable,
    pub ty: Type,
    pub default_value: Option<Value>,
    pub directives: Vec<Directive>,
}

/// The variables of an operation.
#[derive(Debug)]
pub struct VariablesDefinition {
    pub position: Pos,
    pub definitions: Vec<VariableDefinition>,
}

/// A field selection.
#[derive(Debug)]
pub struct Field {
    pub alias: Option<Ident>,
    pub name: Ident,
    pub arguments: Option<Arguments>,
    pub directives: Vec<Directive>,
    pub selection_set: Option<SelectionSet>,
}

/// A fragment spread such as `...UserFields`.
#[derive(Debug)]
pub struct FragmentSpread {
    pub position: Pos,
    pub fragment_name: Ident,
    pub directives: Vec<Directive>,
}

/// An inline fragment such as `... on User { id }`.
#[derive(Debug)]
pub struct InlineFragment {
    pub position: Pos,
    pub type_condition: Option<Ident>,
    pub directives: Vec<Directive>,
    pub selection_set: SelectionSet,
}

/// One entry of a selection set.
#[derive(Debug)]
pub enum Selection {
    Field(Field),
    FragmentSpread(FragmentSpread),
    InlineFragment(InlineFragment),
}

/// A selection set `{ ... }`.
#[derive(Debug)]
pub struct SelectionSet {
    pub position: Pos,
    pub selections: Vec<Selection>,
}

/// A query, mutation or subscription.
#[derive(Debug)]
pub struct OperationDefinition {
    pub position: Pos,
    pub operation_type: OperationType,
    pub name: Option<Ident>,
    pub variables_definition: Option<VariablesDefinition>,
    pub directives: Vec<Directive>,
    pub selection_set: SelectionSet,
}

/// A named fragment `fragment F on T { ... }`.
#[derive(Debug)]
pub struct FragmentDefinition {
    pub position: Pos,
    pub name: Ident,
    pub type_condition: Ident,
    pub directives: Vec<Directive>,
    pub selection_set: SelectionSet,
}

/// A top-level definition of an operation document.
#[derive(Debug)]
pub enum ExecutableDefinition {
    OperationDefinition(OperationDefinition),
    FragmentDefinition(FragmentDefinition),
}

impl ExecutableDefinition {
    /// Where the definition starts.
    pub open spec fn spec_position(&self) -> Pos {
        match self {
            ExecutableDefinition::OperationDefinition(op) => op.position,
            ExecutableDefinition::FragmentDefinition(f) => f.position,
        }
    }

    /// Where the definition starts.
    pub fn position(&self) -> (r: Pos)
        ensures
            r == self.spec_position(),
    {
        match self {
            ExecutableDefinition::OperationDefinition(op) => op.position,
            ExecutableDefinition::FragmentDefinition(f) => f.position,
        }
    }
}

/// An operation document: a list of operations and fragments.
#[derive(Debug)]
pub struct OperationDocument {
    pub definitions: Vec<ExecutableDefinition>,
}

} // verus!
