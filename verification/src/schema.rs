//! The type system (schema) that operation documents are checked against.
use vstd::prelude::*;
use crate::ast::{opt_ref_is, Ident, Pos, Type, Value};

verus! {

/// An argument of a field or a directive, or a field of an input object.
#[derive(Debug)]
pub struct InputValueDefinition {
    pub name: Ident,
    pub ty: Type,
    pub default_value: Option<Value>,
}

/// A field of an object or an interface type.
#[derive(Debug)]
pub struct FieldDefinition {
    pub name: Ident,
    pub arguments: Vec<InputValueDefinition>,
    pub ty: Type,
}

#[derive(Debug)]
pub struct ScalarDefinition {
    pub position: Pos,
    pub name: Ident,
}

#[derive(Debug)]
pub struct ObjectDefinition {
    pub position: Pos,
    pub name: Ident,
    /// The interfaces that the object type implements.
    pub implements: Vec<Ident>,
    pub fields: Vec<FieldDefinition>,
}

#[derive(Debug)]
pub struct InterfaceDefinition {
    pub position: Pos,
    pub name: Ident,
    /// The interfaces that the interface extends.
    pub implements: Vec<Ident>,
    pub fields: Vec<FieldDefinition>,
}

#[derive(Debug)]
pub struct UnionDefinition {
    pub position: Pos,
    pub name: Ident,
    pub members: Vec<Ident>,
}

#[derive(Debug)]
pub struct EnumDefinition {
    pub position: Pos,
    pub name: Ident,
    pub members: Vec<Ident>,
}

#[derive(Debug)]
pub struct InputObjectDefinition {
    pub position: Pos,
    pub name: Ident,
    pub fields: Vec<InputValueDefinition>,
}

/// A named type of the schema.
#[derive(Debug)]
pub enum TypeDefinition {
    Scalar(ScalarDefinition),
    Object(ObjectDefinition),
    Interface(InterfaceDefinition),
    Union(UnionDefinition),
    Enum(EnumDefinition),
    InputObject(InputObjectDefinition),
}

impl TypeDefinition {
    /// The name of the type.
    pub open spec fn spec_name(&self) -> Ident {
        match self {
            TypeDefinition::Scalar(d) => d.name,
            TypeDefinition::Object(d) => d.name,
            TypeDefinition::Interface(d) => d.name,
            TypeDefinition::Union(d) => d.name,
            TypeDefinition::Enum(d) => d.name,
            TypeDefinition::InputObject(d) => d.name,
        }
    }

    /// Where the type is defined.
    pub open spec fn spec_position(&self) -> Pos {
        match self {
            TypeDefinition::Scalar(d) => d.position,
            TypeDefinition::Object(d) => d.position,
            TypeDefinition::Interface(d) => d.position,
            TypeDefinition::Union(d) => d.position,
            TypeDefinition::Enum(d) => d.position,
            TypeDefinition::InputObject(d) => d.position,
        }
    }

    /// The name of the type.
    pub fn name(&self) -> (r: &Ident)
        ensures
            *r == self.spec_name(),
    {
        match self {
            TypeDefinition::Scalar(d) => &d.name,
            TypeDefinition::Object(d) => &d.name,
            TypeDefinition::Interface(d) => &d.name,
            TypeDefinition::Union(d) => &d.name,
            TypeDefinition::Enum(d) => &d.name,
            TypeDefinition::InputObject(d) => &d.name,
        }
    }

    /// Where the type is defined.
    pub fn position(&self) -> (r: Pos)
        ensures
            r == self.spec_position(),
    {
        match self {
            TypeDefinition::Scalar(d) => d.position,
            TypeDefinition::Object(d) => d.position,
            TypeDefinition::Interface(d) => d.position,
            TypeDefinition::Union(d) => d.position,
            TypeDefinition::Enum(d) => d.position,
            TypeDefinition::InputObject(d) => d.position,
        }
    }
}

/// A directive that the schema declares.
#[derive(Debug)]
pub struct DirectiveDefinition {
    pub position: Pos,
    pub name: Ident,
    pub arguments: Vec<InputValueDefinition>,
    pub repeatable: bool,
    /// The locations (such as `FIELD` or `QUERY`) where the directive may stand.
    pub locations: Vec<Ident>,
}

/// The root operation types that a `schema { ... }` definition names.
#[derive(Debug)]
pub struct RootTypes {
    pub query_type: Option<Ident>,
    pub mutation_type: Option<Ident>,
    pub subscription_type: Option<Ident>,
}

/// The first type named `name` in `types`.
pub open spec fn find_type(types: Seq<TypeDefinition>, name: Seq<char>) -> Option<TypeDefinition>
    decreases types.len(),
{
    if types.len() == 0 {
        None
    } else if types[0].spec_name().name@ == name {
        Some(types[0])
    } else {
        find_type(types.drop_first(), name)
    }
}

/// The first directive named `name` in `directives`.
pub open spec fn find_directive(directives: Seq<DirectiveDefinition>, name: Seq<char>) -> Option<
    DirectiveDefinition,
>
    decreases directives.len(),
{
    if directives.len() == 0 {
        None
    } else if directives[0].name.name@ == name {
        Some(directives[0])
    } else {
        find_directive(directives.drop_first(), name)
    }
}

/// No two types share a name.
pub open spec fn type_names_distinct(types: Seq<TypeDefinition>) -> bool {
    forall|i: int, j: int|
        0 <= i < j < types.len() ==> #[trigger] types[i].spec_name().name@ != #[trigger] types[j].spec_name().name@
}

/// No two directives share a name.
pub open spec fn directive_names_distinct(directives: Seq<DirectiveDefinition>) -> bool {
    forall|i: int, j: int|
        0 <= i < j < directives.len() ==> #[trigger] directives[i].name.name@
            != #[trigger] directives[j].name.name@
}

/// A schema: its types, its directives and its root operation types. Types and
/// directives are keyed by name: no name occurs twice.
#[derive(Debug)]
pub struct Schema {
    types: Vec<TypeDefinition>,
    directives: Vec<DirectiveDefinition>,
    root_types: RootTypes,
    root_types_position: Pos,
}

impl Schema {
    #[verifier::type_invariant]
    spec fn wf(self) -> bool {
        type_names_distinct(self.types@) && directive_names_distinct(self.directives@)
    }

    /// The types of the schema.
    pub closed spec fn spec_types(&self) -> Seq<TypeDefinition> {
        self.types@
    }

    /// The directives of the schema.
    pub closed spec fn spec_directives(&self) -> Seq<DirectiveDefinition> {
        self.directives@
    }

    /// The root operation types.
    pub closed spec fn spec_root_types(&self) -> RootTypes {
        self.root_types
    }

    /// Where the root operation types are defined; `builtin` is set when the
    /// schema has no `schema { ... }` definition of its own.
    pub closed spec fn spec_root_types_position(&self) -> Pos {
        self.root_types_position
    }

    /// The type named `name`, if the schema has one.
    pub open spec fn spec_get_type(&self, name: Seq<char>) -> Option<TypeDefinition> {
        find_type(self.spec_types(), name)
    }

    /// The directive named `name`, if the schema has one.
    pub open spec fn spec_get_directive(&self, name: Seq<char>) -> Option<DirectiveDefinition> {
        find_directive(self.spec_directives(), name)
    }

    /// Builds a schema; `None` when two types or two directives share a name.
    pub fn new(
        types: Vec<TypeDefinition>,
        directives: Vec<DirectiveDefinition>,
        root_types: RootTypes,
        root_types_position: Pos,
    ) -> (r: Option<Schema>)
        ensures
            r is Some <==> (type_names_distinct(types@) && directive_names_distinct(directives@)),
            r matches Some(s) ==> s.spec_types() == types@ && s.spec_directives() == directives@
                && s.spec_root_types() == root_types && s.spec_root_types_position()
                == root_types_position,
    {
        let n = types.len();
        let mut i: usize = 0;
        while i < n
            invariant
                n == types.len(),
                i <= n,
                forall|a: int, b: int|
                    0 <= a < b < types.len() && a < i ==> #[trigger] types@[a].spec_name().name@
                        != #[trigger] types@[b].spec_name().name@,
            decreases n - i,
        {
            let mut j: usize = i + 1;
            while j < n
                invariant
                    n == types.len(),
                    i < n,
                    i < j <= n,
                    forall|a: int, b: int|
                        0 <= a < b < types.len() && a < i ==> #[trigger] types@[a].spec_name().name@
                            != #[trigger] types@[b].spec_name().name@,
                    forall|b: int|
                        i < b < j ==> types@[i as int].spec_name().name@
                            != #[trigger] types@[b].spec_name().name@,
                decreases n - j,
            {
                if types[i].name().name == types[j].name().name {
                    assert(!type_names_distinct(types@)) by {
                        assert(types@[i as int].spec_name().name@ == types@[j as int].spec_name().name@);
                    }
                    return None;
                }
                j = j + 1;
            }
            i = i + 1;
        }
        let m = directives.len();
        let mut i: usize = 0;
        while i < m
            invariant
                m == directives.len(),
                i <= m,
                forall|a: int, b: int|
                    0 <= a < b < directives.len() && a < i ==> #[trigger] directives@[a].name.name@
                        != #[trigger] directives@[b].name.name@,
            decreases m - i,
        {
            let mut j: usize = i + 1;
            while j < m
                invariant
                    m == directives.len(),
                    i < m,
                    i < j <= m,
                    forall|a: int, b: int|
                        0 <= a < b < directives.len() && a < i ==> #[trigger] directives@[a].name.name@
                            != #[trigger] directives@[b].name.name@,
                    forall|b: int|
                        i < b < j ==> directives@[i as int].name.name@
                            != #[trigger] directives@[b].name.name@,
                decreases m - j,
            {
                if directives[i].name.name == directives[j].name.name {
                    assert(!directive_names_distinct(directives@)) by {
                        assert(directives@[i as int].name.name@ == directives@[j as int].name.name@);
                    }
                    return None;
                }
                j = j + 1;
            }
            i = i + 1;
        }
        Some(Schema { types, directives, root_types, root_types_position })
    }

    /// The types of the schema.
    pub fn types(&self) -> (r: &Vec<TypeDefinition>)
        ensures
            r@ == self.spec_types(),
    {
        &self.types
    }

    /// The root operation types.
    pub fn root_types(&self) -> (r: &RootTypes)
        ensures
            *r == self.spec_root_types(),
    {
        &self.root_types
    }

    /// Where the root operation types are defined.
    pub fn root_types_position(&self) -> (r: Pos)
        ensures
            r == self.spec_root_types_position(),
    {
        self.root_types_position
    }

    /// The type named `name`, if the schema has one.
    pub fn get_type(&self, name: &String) -> (r: Option<&TypeDefinition>)
        ensures
            opt_ref_is(r, self.spec_get_type(name@)),
    {
        let mut i: usize = 0;
        assert(self.types@.skip(0) =~= self.types@);
        while i < self.types.len()
            invariant
                i <= self.types@.len(),
                find_type(self.types@, name@) == find_type(self.types@.skip(i as int), name@),
            decreases self.types.len() - i,
        {
            assert(self.types@.skip(i as int)[0] == self.types@[i as int]);
            if self.types[i].name().name == *name {
                return Some(&self.types[i]);
            }
            assert(self.types@.skip(i as int).drop_first() =~= self.types@.skip(i + 1));
            i = i + 1;
        }
        None
    }

    /// The directive named `name`, if the schema has one.
    pub fn get_directive(&self, name: &String) -> (r: Option<&DirectiveDefinition>)
        ensures
            opt_ref_is(r, self.spec_get_directive(name@)),
    {
        let mut i: usize = 0;
        assert(self.directives@.skip(0) =~= self.directives@);
        while i < self.directives.len()
            invariant
                i <= self.directives@.len(),
                find_directive(self.directives@, name@) == find_directive(
                    self.directives@.skip(i as int),
                    name@,
                ),
            decreases self.directives.len() - i,
        {
            assert(self.directives@.skip(i as int)[0] == self.directives@[i as int]);
            if self.directives[i].name.name == *name {
                return Some(&self.directives[i]);
            }
            assert(self.directives@.skip(i as int).drop_first() =~= self.directives@.skip(i + 1));
            i = i + 1;
        }
        None
    }
}

/// The fields that can be selected directly on a type: those of an object or
/// an interface type, none for a union type (a union offers no field of its
/// own, not even `__typename`, unless the schema lists it); `None` for a type
/// that is not an output type with fields (scalars, enums, input objects).
pub open spec fn spec_direct_fields(def: TypeDefinition) -> Option<Seq<FieldDefinition>> {
    match def {
        TypeDefinition::Object(o) => Some(o.fields@),
        TypeDefinition::Interface(i) => Some(i.fields@),
        TypeDefinition::Union(_) => Some(seq![]),
        _ => None,
    }
}

/// The fields that can be selected directly on a type (see [`spec_direct_fields`]).
pub fn direct_fields_of_output_type(def: &TypeDefinition) -> (r: Option<&[FieldDefinition]>)
    ensures
        match r {
            Some(fs) => spec_direct_fields(*def) == Some(fs@),
            None => spec_direct_fields(*def) is None,
        },
{
    match def {
        TypeDefinition::Object(o) => Some(o.fields.as_slice()),
        TypeDefinition::Interface(i) => Some(i.fields.as_slice()),
        TypeDefinition::Union(_) => {
            let none: &[FieldDefinition] = &[];
            assert(none@ =~= Seq::<FieldDefinition>::empty());
            Some(none)
        },
        _ => None,
    }
}

} // verus!
