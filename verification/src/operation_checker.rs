//! Checks of an operation document against a schema: operation and fragment
//! names, root types, variables, directives, and every selection set, with
//! fragments followed where they are spread.
use vstd::prelude::*;
use crate::ast::{
    opt_ref_is, ExecutableDefinition, Field, FragmentDefinition, FragmentSpread, Ident,
    InlineFragment, OperationDefinition, OperationDocument, OperationType, Pos, Selection,
    SelectionSet, VariableDefinition, VariablesDefinition,
};
use crate::common::{check_arguments, check_directives, arguments_errors, directives_errors};
use crate::error::{
    error_at, error_with_info, one_note, push_error, two_notes, CheckError, CheckErrorMessage,
    CheckErrorView, MessageView, TypeKind,
};
use crate::fragment_map::{
    fragment_map_of, fragments_of, generate_fragment_map, is_fragment_named, lemma_fragment_map_of_document,
    lemma_map_of_fragments_finite,
    map_of_fragments, FragmentMap,
};
use crate::schema::{
    direct_fields_of_output_type, spec_direct_fields, FieldDefinition, InterfaceDefinition, RootTypes, Schema,
    TypeDefinition, UnionDefinition,
};

verus! {

// ---------------------------------------------------------------------------
// Specification
// ---------------------------------------------------------------------------

/// The kind of a type definition.
pub open spec fn spec_kind_of(def: TypeDefinition) -> TypeKind {
    match def {
        TypeDefinition::Scalar(_) => TypeKind::Scalar,
        TypeDefinition::Object(_) => TypeKind::Object,
        TypeDefinition::Interface(_) => TypeKind::Interface,
        TypeDefinition::Union(_) => TypeKind::Union,
        TypeDefinition::Enum(_) => TypeKind::Enum,
        TypeDefinition::InputObject(_) => TypeKind::InputObject,
    }
}

/// The kinds of type that may be the type of a variable.
pub open spec fn is_input_kind(k: TypeKind) -> bool {
    k == TypeKind::Scalar || k == TypeKind::Enum || k == TypeKind::InputObject
}

/// The number of fragment names that have not been entered yet: the measure
/// that shrinks each time a fragment spread is followed.
pub open spec fn unseen_fragments(frags: Seq<FragmentDefinition>, seen: Seq<Seq<char>>) -> nat {
    map_of_fragments(frags).dom().difference(seen.to_set()).len()
}

/// Some identifier in `ids` is `name`.
pub open spec fn idents_contain(ids: Seq<Ident>, name: Seq<char>) -> bool {
    exists|k: int| 0 <= k < ids.len() && #[trigger] ids[k].name@ == name
}

/// The first field named `name`.
pub open spec fn find_field(fields: Seq<FieldDefinition>, name: Seq<char>) -> Option<FieldDefinition>
    decreases fields.len(),
{
    if fields.len() == 0 {
        None
    } else if fields[0].name.name@ == name {
        Some(fields[0])
    } else {
        find_field(fields.drop_first(), name)
    }
}

/// "The fragment condition never matches", with notes at the two definitions.
pub open spec fn never_matches(
    spread_pos: Pos,
    condition: Seq<char>,
    scope: Seq<char>,
    p1: Pos,
    n1: Seq<char>,
    p2: Pos,
    n2: Seq<char>,
) -> CheckErrorView {
    error_with_info(
        spread_pos,
        MessageView::FragmentConditionNeverMatches { condition, scope },
        seq![(p1, MessageView::DefinitionPos { name: n1 }), (p2, MessageView::DefinitionPos { name: n2 })],
    )
}

/// Some object type of the schema implements both interfaces.
pub open spec fn some_object_implements_both(types: Seq<TypeDefinition>, a: Seq<char>, b: Seq<char>) -> bool {
    exists|k: int|
        0 <= k < types.len() && match #[trigger] types[k] {
            TypeDefinition::Object(o) => idents_contain(o.implements@, a) && idents_contain(o.implements@, b),
            _ => false,
        }
}

/// Some member of one union is a member of the other.
pub open spec fn unions_overlap(m1: Seq<Ident>, m2: Seq<Ident>) -> bool {
    exists|k: int| 0 <= k < m2.len() && idents_contain(m1, #[trigger] m2[k].name@)
}

/// Walks the members of a union in order until one is an object type that
/// implements the interface (`Some` with no error) or one is not an object type
/// (`Some` with a type-system error at that member); `None` when neither occurs.
pub open spec fn scan_union_members(schema: Schema, members: Seq<Ident>, interface: Seq<char>) -> Option<
    Seq<CheckErrorView>,
>
    decreases members.len(),
{
    if members.len() == 0 {
        None
    } else {
        match schema.spec_get_type(members[0].name@) {
            Some(TypeDefinition::Object(o)) => if idents_contain(o.implements@, interface) {
                Some(seq![])
            } else {
                scan_union_members(schema, members.drop_first(), interface)
            },
            _ => Some(seq![error_at(members[0].position, MessageView::TypeSystemError)]),
        }
    }
}

/// The errors of a fragment whose condition is `cond`, spread where `root` is
/// selected; `None` where checking stops there (a scope that has no
/// fields, or two conditions on the same interface).
///
/// Two messages are as they are on purpose: for two interfaces the scope
/// named is the condition's own interface, and for two unions each note
/// pairs one union's position with the other union's name.
pub open spec fn fragment_condition_errors(
    schema: Schema,
    root: TypeDefinition,
    spread_pos: Pos,
    cond: TypeDefinition,
) -> Option<Seq<CheckErrorView>> {
    match root {
        TypeDefinition::Scalar(_) | TypeDefinition::Enum(_) | TypeDefinition::InputObject(_) => None,
        TypeDefinition::Object(o) => match cond {
            TypeDefinition::Object(c) => Some(
                if o.name.name@ != c.name.name@ {
                    seq![never_matches(spread_pos, c.name.name@, o.name.name@, c.position, c.name.name@, o.position, o.name.name@)]
                } else {
                    seq![]
                },
            ),
            TypeDefinition::Interface(i) => Some(
                if !idents_contain(o.implements@, i.name.name@) {
                    seq![never_matches(spread_pos, i.name.name@, o.name.name@, i.position, i.name.name@, o.position, o.name.name@)]
                } else {
                    seq![]
                },
            ),
            TypeDefinition::Union(u) => Some(
                if !idents_contain(u.members@, o.name.name@) {
                    seq![never_matches(spread_pos, u.name.name@, o.name.name@, u.position, u.name.name@, o.position, o.name.name@)]
                } else {
                    seq![]
                },
            ),
            _ => Some(seq![]),
        },
        TypeDefinition::Interface(i) => match cond {
            TypeDefinition::Object(o) => Some(
                if !idents_contain(o.implements@, i.name.name@) {
                    seq![never_matches(spread_pos, i.name.name@, o.name.name@, i.position, i.name.name@, o.position, o.name.name@)]
                } else {
                    seq![]
                },
            ),
            TypeDefinition::Interface(i2) => if i.name.name@ == i2.name.name@ {
                None
            } else {
                Some(
                    if !some_object_implements_both(schema.spec_types(), i.name.name@, i2.name.name@) {
                        seq![never_matches(spread_pos, i2.name.name@, i2.name.name@, i2.position, i2.name.name@, i.position, i.name.name@)]
                    } else {
                        seq![]
                    },
                )
            },
            TypeDefinition::Union(u) => Some(
                match scan_union_members(schema, u.members@, i.name.name@) {
                    Some(errs) => errs,
                    None => seq![never_matches(spread_pos, u.name.name@, i.name.name@, i.position, i.name.name@, u.position, u.name.name@)],
                },
            ),
            _ => Some(seq![]),
        },
        TypeDefinition::Union(u) => match cond {
            TypeDefinition::Object(o) => Some(
                if !idents_contain(u.members@, o.name.name@) {
                    seq![never_matches(spread_pos, u.name.name@, o.name.name@, u.position, u.name.name@, o.position, o.name.name@)]
                } else {
                    seq![]
                },
            ),
            TypeDefinition::Interface(i) => Some(
                match scan_union_members(schema, u.members@, i.name.name@) {
                    Some(errs) => errs,
                    None => seq![never_matches(spread_pos, u.name.name@, i.name.name@, i.position, i.name.name@, u.position, u.name.name@)],
                },
            ),
            TypeDefinition::Union(u2) => Some(
                if !unions_overlap(u.members@, u2.members@) {
                    seq![never_matches(spread_pos, u2.name.name@, u.name.name@, u2.position, u.name.name@, u.position, u2.name.name@)]
                } else {
                    seq![]
                },
            ),
            _ => Some(seq![]),
        },
    }
}

/// The errors of a selection set selected on `root`.
pub open spec fn selection_set_errors(
    schema: Schema,
    frags: Seq<FragmentDefinition>,
    seen: Seq<Seq<char>>,
    root: TypeDefinition,
    ss: SelectionSet,
) -> Seq<CheckErrorView>
    decreases unseen_fragments(frags, seen), ss, 0nat,
{
    let name = root.spec_name().name@;
    match spec_direct_fields(root) {
        None => seq![
            error_with_info(
                ss.position,
                MessageView::SelectionOnInvalidType { kind: spec_kind_of(root), name },
                seq![(root.spec_position(), MessageView::DefinitionPos { name })],
            ),
        ],
        Some(fields) => selections_errors(schema, frags, seen, root, fields, ss.selections@),
    }
}

/// The errors of the selections `sels`, in order.
pub open spec fn selections_errors(
    schema: Schema,
    frags: Seq<FragmentDefinition>,
    seen: Seq<Seq<char>>,
    root: TypeDefinition,
    fields: Seq<FieldDefinition>,
    sels: Seq<Selection>,
) -> Seq<CheckErrorView>
    decreases unseen_fragments(frags, seen), sels, 0nat,
{
    if sels.len() == 0 {
        seq![]
    } else {
        selections_errors(schema, frags, seen, root, fields, sels.drop_last()) + selection_errors(
            schema,
            frags,
            seen,
            root,
            fields,
            sels.last(),
        )
    }
}

/// The errors of one selection.
pub open spec fn selection_errors(
    schema: Schema,
    frags: Seq<FragmentDefinition>,
    seen: Seq<Seq<char>>,
    root: TypeDefinition,
    fields: Seq<FieldDefinition>,
    sel: Selection,
) -> Seq<CheckErrorView>
    decreases unseen_fragments(frags, seen), sel, 1nat,
{
    match sel {
        Selection::Field(f) => field_errors(
            schema,
            frags,
            seen,
            root.spec_position(),
            root.spec_name().name@,
            fields,
            f,
        ),
        Selection::FragmentSpread(s) => fragment_spread_errors(schema, frags, seen, root, s),
        Selection::InlineFragment(i) => inline_fragment_errors(schema, frags, seen, root, i),
    }
}

/// The errors of a field selected on the type named `root_name` whose fields are `fields`.
pub open spec fn field_errors(
    schema: Schema,
    frags: Seq<FragmentDefinition>,
    seen: Seq<Seq<char>>,
    root_pos: Pos,
    root_name: Seq<char>,
    fields: Seq<FieldDefinition>,
    f: Field,
) -> Seq<CheckErrorView>
    decreases unseen_fragments(frags, seen), f, 0nat,
{
    match find_field(fields, f.name.name@) {
        None => seq![
            error_with_info(
                f.name.position,
                MessageView::FieldNotFound { field_name: f.name.name@, scope_name: root_name },
                seq![(root_pos, MessageView::DefinitionPos { name: root_name })],
            ),
        ],
        Some(target) => directives_errors(schema, f.directives@, "FIELD"@) + arguments_errors(
            f.name.position,
            f.arguments,
            target.arguments@,
        ) + match schema.spec_get_type(target.ty.spec_unwrapped().name@) {
            None => seq![error_at(f.name.position, MessageView::TypeSystemError)],
            Some(target_type) => match f.selection_set {
                Some(ss) => selection_set_errors(schema, frags, seen, target_type, ss),
                None => if spec_direct_fields(target_type) is Some {
                    seq![error_at(f.name.position, MessageView::MustSpecifySelectionSet { name: f.name.name@ })]
                } else {
                    seq![]
                },
            },
        },
    }
}

/// The errors of a fragment spread where `root` is selected.
pub open spec fn fragment_spread_errors(
    schema: Schema,
    frags: Seq<FragmentDefinition>,
    seen: Seq<Seq<char>>,
    root: TypeDefinition,
    s: FragmentSpread,
) -> Seq<CheckErrorView>
    decreases unseen_fragments(frags, seen), Selection::FragmentSpread(s), 0nat,
{
    let name = s.fragment_name.name@;
    let fm = map_of_fragments(frags);
    if seen.contains(name) {
        seq![error_at(s.position, MessageView::RecursingFragmentSpread { name })]
    } else if !fm.dom().contains(name) {
        seq![error_at(s.fragment_name.position, MessageView::UnknownFragment { name })]
    } else {
        let target = fm[name];
        match schema.spec_get_type(target.type_condition.name@) {
            None => seq![],
            Some(cond) => {
                proof {
                    lemma_unseen_decreases(frags, seen, name);
                }
                spread_core_errors(
                    schema,
                    frags,
                    seen.push(name),
                    root,
                    s.position,
                    cond,
                    target.selection_set,
                )
            },
        }
    }
}

/// The errors of an inline fragment where `root` is selected.
pub open spec fn inline_fragment_errors(
    schema: Schema,
    frags: Seq<FragmentDefinition>,
    seen: Seq<Seq<char>>,
    root: TypeDefinition,
    i: InlineFragment,
) -> Seq<CheckErrorView>
    decreases unseen_fragments(frags, seen), i, 0nat,
{
    match i.type_condition {
        None => selection_set_errors(schema, frags, seen, root, i.selection_set),
        Some(tc) => match schema.spec_get_type(tc.name@) {
            None => seq![error_at(tc.position, MessageView::UnknownType { name: tc.name@ })],
            Some(cond) => spread_core_errors(schema, frags, seen, root, i.position, cond, i.selection_set),
        },
    }
}

/// The errors of a fragment with condition `cond` and selection set `ss`,
/// spread where `root` is selected: the condition first, then the selection
/// set, selected on the condition's type.
pub open spec fn spread_core_errors(
    schema: Schema,
    frags: Seq<FragmentDefinition>,
    seen: Seq<Seq<char>>,
    root: TypeDefinition,
    spread_pos: Pos,
    cond: TypeDefinition,
    ss: SelectionSet,
) -> Seq<CheckErrorView>
    decreases unseen_fragments(frags, seen), ss, 1nat,
{
    match fragment_condition_errors(schema, root, spread_pos, cond) {
        None => seq![],
        Some(errs) => errs + selection_set_errors(schema, frags, seen, cond, ss),
    }
}

/// The number of fields in the selections, with inline fragments and spread
/// fragments (each at most once on a path) expanded; counted up to 2.
pub open spec fn count_fields(frags: Seq<FragmentDefinition>, seen: Seq<Seq<char>>, sels: Seq<Selection>) -> nat
    decreases unseen_fragments(frags, seen), sels, 0nat,
{
    if sels.len() == 0 {
        0
    } else {
        let n = count_fields(frags, seen, sels.drop_last()) + count_selection(frags, seen, sels.last());
        if n > 2 {
            2
        } else {
            n
        }
    }
}

/// The number of fields one selection contributes (see [`count_fields`]).
pub open spec fn count_selection(frags: Seq<FragmentDefinition>, seen: Seq<Seq<char>>, sel: Selection) -> nat
    decreases unseen_fragments(frags, seen), sel, 0nat,
{
    match sel {
        Selection::Field(_) => 1,
        Selection::InlineFragment(i) => count_fields(frags, seen, i.selection_set.selections@),
        Selection::FragmentSpread(s) => {
            let name = s.fragment_name.name@;
            let fm = map_of_fragments(frags);
            if seen.contains(name) || !fm.dom().contains(name) {
                0
            } else {
                proof {
                    lemma_unseen_decreases(frags, seen, name);
                }
                count_fields(frags, seen.push(name), fm[name].selection_set.selections@)
            }
        },
    }
}

/// The errors of the variables of an operation: a name used twice, a type that
/// is not defined, and a type that is not an input type.
pub open spec fn variables_errors(schema: Schema, defs: Seq<VariableDefinition>) -> Seq<CheckErrorView>
    decreases defs.len(),
{
    if defs.len() == 0 {
        seq![]
    } else {
        variables_errors(schema, defs.drop_last()) + variable_errors(schema, defs.drop_last(), defs.last())
    }
}

/// The errors of the variable `v`, declared after `earlier`.
pub open spec fn variable_errors(
    schema: Schema,
    earlier: Seq<VariableDefinition>,
    v: VariableDefinition,
) -> Seq<CheckErrorView> {
    let name = v.name.name@;
    let var_type_name = v.ty.spec_unwrapped().name@;
    (if exists|k: int| 0 <= k < earlier.len() && #[trigger] earlier[k].name.name@ == name {
        seq![error_at(v.pos, MessageView::DuplicatedVariableName { name })]
    } else {
        seq![]
    }) + match schema.spec_get_type(var_type_name) {
        None => seq![error_at(v.ty.spec_position(), MessageView::UnknownType { name: var_type_name })],
        Some(t) => if is_input_kind(spec_kind_of(t)) {
            seq![]
        } else {
            seq![error_at(v.ty.spec_position(), MessageView::NoOutputType { name: var_type_name })]
        },
    }
}

/// The errors of a fragment definition: a condition type that is not defined,
/// or that is not an object, interface or union type.
pub open spec fn fragment_definition_errors(schema: Schema, fd: FragmentDefinition) -> Seq<CheckErrorView> {
    let tc = fd.type_condition;
    match schema.spec_get_type(tc.name@) {
        None => seq![error_at(tc.position, MessageView::UnknownType { name: tc.name@ })],
        Some(t) => if t is Object || t is Interface || t is Union {
            seq![]
        } else {
            seq![
                error_with_info(
                    tc.position,
                    MessageView::InvalidFragmentTarget { name: tc.name@ },
                    seq![(t.spec_position(), MessageView::DefinitionPos { name: t.spec_name().name@ })],
                ),
            ]
        },
    }
}

/// The root type that the schema names for an operation type, if it names one.
pub open spec fn root_type_entry(rt: RootTypes, op: OperationType) -> Option<Ident> {
    match op {
        OperationType::Query => rt.query_type,
        OperationType::Mutation => rt.mutation_type,
        OperationType::Subscription => rt.subscription_type,
    }
}

/// The conventional root type name of an operation type, used when the schema
/// has no `schema { ... }` definition of its own or does not name the root
/// type there.
pub open spec fn default_root_name(op: OperationType) -> Seq<char> {
    match op {
        OperationType::Query => "Query"@,
        OperationType::Mutation => "Mutation"@,
        OperationType::Subscription => "Subscription"@,
    }
}

/// The directive location of an operation type.
pub open spec fn operation_location(op: OperationType) -> Seq<char> {
    match op {
        OperationType::Query => "QUERY"@,
        OperationType::Mutation => "MUTATION"@,
        OperationType::Subscription => "SUBSCRIPTION"@,
    }
}

/// The errors of one operation. A schema with a `schema { ... }` definition of
/// its own must name the operation's root type; otherwise the conventional
/// name is used. Then the directives, the variables, the single root field
/// of a subscription, and the selection set are checked.
pub open spec fn operation_errors(schema: Schema, frags: Seq<FragmentDefinition>, op: OperationDefinition) -> Seq<
    CheckErrorView,
> {
    let rpos = schema.spec_root_types_position();
    let explicit = root_type_entry(schema.spec_root_types(), op.operation_type);
    if !rpos.builtin && explicit is None {
        seq![
            error_with_info(
                op.position,
                MessageView::NoRootType { operation_type: op.operation_type },
                seq![(rpos, MessageView::RootTypesAreDefinedHere)],
            ),
        ]
    } else {
        let root_name = match explicit {
            Some(n) => n.name@,
            None => default_root_name(op.operation_type),
        };
        match schema.spec_get_type(root_name) {
            None => seq![error_at(op.position, MessageView::UnknownType { name: root_name })],
            Some(root) => directives_errors(schema, op.directives@, operation_location(op.operation_type))
                + match op.variables_definition {
                Some(v) => variables_errors(schema, v.definitions@),
                None => seq![],
            } + (if op.operation_type == OperationType::Subscription && count_fields(
                frags,
                seq![],
                op.selection_set.selections@,
            ) > 1 {
                seq![error_at(op.position, MessageView::SubscriptionMustHaveExactlyOneRootField)]
            } else {
                seq![]
            }) + selection_set_errors(schema, frags, seq![], root, op.selection_set),
        }
    }
}

/// The number of operations among the definitions.
pub open spec fn operation_count(defs: Seq<ExecutableDefinition>) -> nat
    decreases defs.len(),
{
    if defs.len() == 0 {
        0
    } else {
        operation_count(defs.drop_last()) + if defs.last() is OperationDefinition {
            1nat
        } else {
            0nat
        }
    }
}

/// The first operation among `defs` named `name`.
pub open spec fn first_operation_named(defs: Seq<ExecutableDefinition>, name: Seq<char>) -> Option<
    ExecutableDefinition,
>
    decreases defs.len(),
{
    if defs.len() == 0 {
        None
    } else if (match defs[0] {
        ExecutableDefinition::OperationDefinition(op) => op.name matches Some(n) && n.name@ == name,
        _ => false,
    }) {
        Some(defs[0])
    } else {
        first_operation_named(defs.drop_first(), name)
    }
}

/// The first fragment among `defs` named `name`.
pub open spec fn first_fragment_named(defs: Seq<ExecutableDefinition>, name: Seq<char>) -> Option<
    ExecutableDefinition,
>
    decreases defs.len(),
{
    if defs.len() == 0 {
        None
    } else if (match defs[0] {
        ExecutableDefinition::FragmentDefinition(f) => f.name.name@ == name,
        _ => false,
    }) {
        Some(defs[0])
    } else {
        first_fragment_named(defs.drop_first(), name)
    }
}

/// The errors of the definition at `idx` of a document.
pub open spec fn definition_errors(schema: Schema, defs: Seq<ExecutableDefinition>, idx: int) -> Seq<
    CheckErrorView,
> {
    match defs[idx] {
        ExecutableDefinition::OperationDefinition(op) => (match op.name {
            None => if operation_count(defs) != 1 {
                seq![error_at(op.position, MessageView::UnNamedOperationMustBeSingle)]
            } else {
                seq![]
            },
            Some(name) => match first_operation_named(defs.take(idx), name.name@) {
                Some(other) => seq![
                    error_with_info(
                        name.position,
                        MessageView::DuplicateOperationName { operation_type: op.operation_type },
                        seq![(other.spec_position(), MessageView::AnotherDefinitionPos { name: name.name@ })],
                    ),
                ],
                None => seq![],
            },
        }) + operation_errors(schema, fragments_of(defs), op),
        ExecutableDefinition::FragmentDefinition(fd) => (match first_fragment_named(
            defs.take(idx),
            fd.name.name@,
        ) {
            Some(other) => seq![
                error_at(
                    fd.name.position,
                    MessageView::DuplicateFragmentName { other_position: other.spec_position() },
                ),
            ],
            None => seq![],
        }) + fragment_definition_errors(schema, fd),
    }
}

/// The errors of the first `n` definitions, in order.
pub open spec fn definitions_errors(schema: Schema, defs: Seq<ExecutableDefinition>, n: nat) -> Seq<
    CheckErrorView,
>
    decreases n,
{
    if n == 0 {
        seq![]
    } else {
        definitions_errors(schema, defs, (n - 1) as nat) + definition_errors(schema, defs, n - 1)
    }
}

/// The errors of a whole document.
pub open spec fn document_errors(schema: Schema, doc: OperationDocument) -> Seq<CheckErrorView> {
    definitions_errors(schema, doc.definitions@, doc.definitions@.len())
}

// ---------------------------------------------------------------------------
// Termination
// ---------------------------------------------------------------------------

/// Entering a fragment that has not been entered yet shrinks the number of
/// fragments left to enter.
pub proof fn lemma_unseen_decreases(frags: Seq<FragmentDefinition>, seen: Seq<Seq<char>>, name: Seq<char>)
    requires
        map_of_fragments(frags).dom().contains(name),
        !seen.contains(name),
    ensures
        unseen_fragments(frags, seen.push(name)) < unseen_fragments(frags, seen),
{
    lemma_map_of_fragments_finite(frags);
    let d = map_of_fragments(frags).dom();
    assert forall|x: Seq<char>| seen.push(name).contains(x) <==> (seen.contains(x) || x == name) by {
        if seen.push(name).contains(x) {
            let k = choose|k: int| 0 <= k < seen.push(name).len() && seen.push(name)[k] == x;
            if k < seen.len() {
                assert(seen[k] == x);
            }
        }
        if seen.contains(x) {
            let k = choose|k: int| 0 <= k < seen.len() && seen[k] == x;
            assert(seen.push(name)[k] == x);
        }
        if x == name {
            assert(seen.push(name)[seen.len() as int] == x);
        }
    }
    assert(seen.push(name).to_set() =~= seen.to_set().insert(name));
    assert(d.difference(seen.push(name).to_set()) =~= d.difference(seen.to_set()).remove(name));
    assert(d.difference(seen.to_set()).contains(name));
}

// ---------------------------------------------------------------------------
// Executable code
// ---------------------------------------------------------------------------

/// The kind of a type definition.
pub fn kind_of_type_definition(definition: &TypeDefinition) -> (r: TypeKind)
    ensures
        r == spec_kind_of(*definition),
{
    match definition {
        TypeDefinition::Scalar(_) => TypeKind::Scalar,
        TypeDefinition::Object(_) => TypeKind::Object,
        TypeDefinition::Interface(_) => TypeKind::Interface,
        TypeDefinition::Union(_) => TypeKind::Union,
        TypeDefinition::Enum(_) => TypeKind::Enum,
        TypeDefinition::InputObject(_) => TypeKind::InputObject,
    }
}

fn ids_contain(ids: &Vec<Ident>, name: &String) -> (r: bool)
    ensures
        r == idents_contain(ids@, name@),
{
    let mut k: usize = 0;
    while k < ids.len()
        invariant
            k <= ids@.len(),
            forall|j: int| 0 <= j < k ==> #[trigger] ids@[j].name@ != name@,
        decreases ids.len() - k,
    {
        if ids[k].name == *name {
            assert(ids@[k as int].name@ == name@);
            return true;
        }
        k = k + 1;
    }
    false
}

fn contains_name(seen: &Vec<&String>, name: &String) -> (r: bool)
    ensures
        r == seen.deep_view().contains(name@),
{
    let mut k: usize = 0;
    while k < seen.len()
        invariant
            k <= seen@.len(),
            forall|j: int| 0 <= j < k ==> #[trigger] seen.deep_view()[j] != name@,
        decreases seen.len() - k,
    {
        if *seen[k] == *name {
            assert(seen.deep_view()[k as int] == name@);
            return true;
        }
        k = k + 1;
    }
    false
}

fn extend_seen<'a>(seen: &Vec<&'a String>, name: &'a String) -> (r: Vec<&'a String>)
    ensures
        r.deep_view() == seen.deep_view().push(name@),
{
    let mut r: Vec<&'a String> = Vec::new();
    let mut k: usize = 0;
    while k < seen.len()
        invariant
            k <= seen@.len(),
            r.deep_view() == seen.deep_view().take(k as int),
        decreases seen.len() - k,
    {
        let ghost before = r.deep_view();
        r.push(seen[k]);
        assert(r.deep_view() =~= before.push(seen.deep_view()[k as int]));
        assert(seen.deep_view().take(k + 1) =~= seen.deep_view().take(k as int).push(seen.deep_view()[k as int]));
        k = k + 1;
    }
    let ghost before = r.deep_view();
    r.push(name);
    assert(r.deep_view() =~= before.push(name@));
    assert(seen.deep_view().take(seen@.len() as int) =~= seen.deep_view());
    r
}

fn find_field_in<'b>(fields: &'b [FieldDefinition], name: &String) -> (r: Option<&'b FieldDefinition>)
    ensures
        opt_ref_is(r, find_field(fields@, name@)),
{
    let mut k: usize = 0;
    assert(fields@.skip(0) =~= fields@);
    while k < fields.len()
        invariant
            k <= fields@.len(),
            find_field(fields@, name@) == find_field(fields@.skip(k as int), name@),
        decreases fields.len() - k,
    {
        assert(fields@.skip(k as int)[0] == fields@[k as int]);
        if fields[k].name.name == *name {
            return Some(&fields[k]);
        }
        assert(fields@.skip(k as int).drop_first() =~= fields@.skip(k + 1));
        k = k + 1;
    }
    None
}

fn never_matches_error(
    spread_pos: Pos,
    condition: &String,
    scope: &String,
    p1: Pos,
    n1: &String,
    p2: Pos,
    n2: &String,
) -> (e: CheckError)
    ensures
        e.deep_view() == never_matches(spread_pos, condition@, scope@, p1, n1@, p2, n2@),
{
    CheckErrorMessage::FragmentConditionNeverMatches {
        condition: condition.clone(),
        scope: scope.clone(),
    }.with_pos(spread_pos).with_additional_info(
        two_notes(
            p1,
            CheckErrorMessage::DefinitionPos { name: n1.clone() },
            p2,
            CheckErrorMessage::DefinitionPos { name: n2.clone() },
        ),
    )
}

fn object_implementing_both(types: &Vec<TypeDefinition>, a: &String, b: &String) -> (r: bool)
    ensures
        r == some_object_implements_both(types@, a@, b@),
{
    let mut k: usize = 0;
    while k < types.len()
        invariant
            k <= types@.len(),
            forall|j: int|
                0 <= j < k ==> !match #[trigger] types@[j] {
                    TypeDefinition::Object(o) => idents_contain(o.implements@, a@) && idents_contain(
                        o.implements@,
                        b@,
                    ),
                    _ => false,
                },
        decreases types.len() - k,
    {
        if let TypeDefinition::Object(o) = &types[k] {
            if ids_contain(&o.implements, a) && ids_contain(&o.implements, b) {
                assert(match types@[k as int] {
                    TypeDefinition::Object(o) => idents_contain(o.implements@, a@) && idents_contain(
                        o.implements@,
                        b@,
                    ),
                    _ => false,
                });
                return true;
            }
        }
        k = k + 1;
    }
    false
}

fn members_overlap(m1: &Vec<Ident>, m2: &Vec<Ident>) -> (r: bool)
    ensures
        r == unions_overlap(m1@, m2@),
{
    let mut k: usize = 0;
    while k < m2.len()
        invariant
            k <= m2@.len(),
            forall|j: int| 0 <= j < k ==> !idents_contain(m1@, #[trigger] m2@[j].name@),
        decreases m2.len() - k,
    {
        if ids_contain(m1, &m2[k].name) {
            return true;
        }
        k = k + 1;
    }
    false
}

fn scan_members(
    schema: &Schema,
    members: &Vec<Ident>,
    interface: &String,
    result: &mut Vec<CheckError>,
) -> (found: bool)
    ensures
        found == scan_union_members(*schema, members@, interface@) is Some,
        final(result).deep_view() == old(result).deep_view() + match scan_union_members(
            *schema,
            members@,
            interface@,
        ) {
            Some(errs) => errs,
            None => seq![],
        },
{
    let mut k: usize = 0;
    assert(members@.skip(0) =~= members@);
    assert(result.deep_view() + seq![] =~= result.deep_view());
    while k < members.len()
        invariant
            k <= members@.len(),
            scan_union_members(*schema, members@, interface@) == scan_union_members(
                *schema,
                members@.skip(k as int),
                interface@,
            ),
            result.deep_view() == old(result).deep_view(),
        decreases members.len() - k,
    {
        let mem = &members[k];
        assert(members@.skip(k as int)[0] == *mem);
        assert(members@.skip(k as int).drop_first() =~= members@.skip(k + 1));
        match schema.get_type(&mem.name) {
            Some(TypeDefinition::Object(mem_def)) => {
                if ids_contain(&mem_def.implements, interface) {
                    assert(result.deep_view() + seq![] =~= result.deep_view());
                    return true;
                }
            },
            _ => {
                push_error(result, CheckErrorMessage::TypeSystemError.with_pos(mem.position));
                return true;
            },
        }
        k = k + 1;
    }
    assert(members@.skip(k as int) =~= Seq::<Ident>::empty());
    assert(result.deep_view() + seq![] =~= result.deep_view());
    false
}

/// Checks whether a fragment with condition `cond` can match where `root` is
/// selected; reports that it never matches, and says whether checking goes
/// on into the fragment's selection set.
fn check_fragment_condition(
    schema: &Schema,
    root_type: &TypeDefinition,
    spread_pos: Pos,
    fragment_condition: &TypeDefinition,
    result: &mut Vec<CheckError>,
) -> (go_on: bool)
    ensures
        go_on == fragment_condition_errors(*schema, *root_type, spread_pos, *fragment_condition) is Some,
        final(result).deep_view() == old(result).deep_view() + match fragment_condition_errors(
            *schema,
            *root_type,
            spread_pos,
            *fragment_condition,
        ) {
            Some(errs) => errs,
            None => seq![],
        },
{
    let ghost start = result.deep_view();
    assert(start + seq![] =~= start);
    match root_type {
        TypeDefinition::Scalar(_) | TypeDefinition::Enum(_) | TypeDefinition::InputObject(_) => false,
        TypeDefinition::Object(obj) => {
            match fragment_condition {
                TypeDefinition::Object(cond) => {
                    if obj.name.name != cond.name.name {
                        push_error(result, never_matches_error(spread_pos, &cond.name.name, &obj.name.name, cond.position, &cond.name.name, obj.position, &obj.name.name));
                    }
                },
                TypeDefinition::Interface(intf) => {
                    if !ids_contain(&obj.implements, &intf.name.name) {
                        push_error(result, never_matches_error(spread_pos, &intf.name.name, &obj.name.name, intf.position, &intf.name.name, obj.position, &obj.name.name));
                    }
                },
                TypeDefinition::Union(un) => {
                    if !ids_contain(&un.members, &obj.name.name) {
                        push_error(result, never_matches_error(spread_pos, &un.name.name, &obj.name.name, un.position, &un.name.name, obj.position, &obj.name.name));
                    }
                },
                _ => {},
            }
            true
        },
        TypeDefinition::Interface(intf) => {
            match fragment_condition {
                TypeDefinition::Object(obj) => {
                    if !ids_contain(&obj.implements, &intf.name.name) {
                        push_error(result, never_matches_error(spread_pos, &intf.name.name, &obj.name.name, intf.position, &intf.name.name, obj.position, &obj.name.name));
                    }
                    true
                },
                TypeDefinition::Interface(intf2) => {
                    if intf.name.name == intf2.name.name {
                        // the same interface: nothing more to check
                        return false;
                    }
                    if !object_implementing_both(schema.types(), &intf.name.name, &intf2.name.name) {
                        push_error(result, never_matches_error(spread_pos, &intf2.name.name, &intf2.name.name, intf2.position, &intf2.name.name, intf.position, &intf.name.name));
                    }
                    true
                },
                TypeDefinition::Union(un) => {
                    if !scan_members(schema, &un.members, &intf.name.name, result) {
                        push_error(result, never_matches_error(spread_pos, &un.name.name, &intf.name.name, intf.position, &intf.name.name, un.position, &un.name.name));
                    }
                    true
                },
                _ => true,
            }
        },
        TypeDefinition::Union(un) => {
            match fragment_condition {
                TypeDefinition::Object(obj) => {
                    if !ids_contain(&un.members, &obj.name.name) {
                        push_error(result, never_matches_error(spread_pos, &un.name.name, &obj.name.name, un.position, &un.name.name, obj.position, &obj.name.name));
                    }
                },
                TypeDefinition::Interface(intf) => {
                    if !scan_members(schema, &un.members, &intf.name.name, result) {
                        push_error(result, never_matches_error(spread_pos, &un.name.name, &intf.name.name, intf.position, &intf.name.name, un.position, &un.name.name));
                    }
                },
                TypeDefinition::Union(un2) => {
                    if !members_overlap(&un.members, &un2.members) {
                        push_error(result, never_matches_error(spread_pos, &un2.name.name, &un.name.name, un2.position, &un.name.name, un.position, &un2.name.name));
                    }
                },
                _ => {},
            }
            true
        },
    }
}

fn check_selection_set<'a>(
    schema: &Schema,
    fragment_map: &FragmentMap<'a>,
    seen_fragments: &Vec<&'a String>,
    root_type: &TypeDefinition,
    selection_set: &'a SelectionSet,
    result: &mut Vec<CheckError>,
)
    ensures
        final(result).deep_view() == old(result).deep_view() + selection_set_errors(
            *schema,
            fragment_map.spec_fragments(),
            seen_fragments.deep_view(),
            *root_type,
            *selection_set,
        ),
    decreases unseen_fragments(fragment_map.spec_fragments(), seen_fragments.deep_view()), *selection_set, 0nat,
{
    let ghost frags = fragment_map.spec_fragments();
    let ghost seen = seen_fragments.deep_view();
    let ghost start = result.deep_view();
    let root_type_name = root_type.name();
    let root_fields = match direct_fields_of_output_type(root_type) {
        None => {
            let e = CheckErrorMessage::SelectionOnInvalidType {
                kind: kind_of_type_definition(root_type),
                name: root_type_name.name.clone(),
            }.with_pos(selection_set.position).with_additional_info(
                one_note(root_type.position(), CheckErrorMessage::DefinitionPos { name: root_type_name.name.clone() }),
            );
            push_error(result, e);
            return;
        },
        Some(fields) => fields,
    };
    let ghost fields = root_fields@;
    let ghost sels = selection_set.selections@;
    let mut i: usize = 0;
    assert(sels.take(0) =~= Seq::<Selection>::empty());
    assert(start + seq![] =~= start);
    while i < selection_set.selections.len()
        invariant
            i <= sels.len(),
            sels == selection_set.selections@,
            frags == fragment_map.spec_fragments(),
            seen == seen_fragments.deep_view(),
            fields == root_fields@,
            *root_type_name == root_type.spec_name(),
            result.deep_view() == start + selections_errors(*schema, frags, seen, *root_type, fields, sels.take(i as int)),
        decreases sels.len() - i,
    {
        let ghost before = result.deep_view();
        let ghost sel = sels[i as int];
        assert(sels.take(i + 1).drop_last() =~= sels.take(i as int));
        assert(sels.take(i + 1).last() == sel);
        match &selection_set.selections[i] {
            Selection::Field(field_selection) => {
                check_selection_field(
                    schema,
                    fragment_map,
                    seen_fragments,
                    root_type.position(),
                    &root_type_name.name,
                    root_fields,
                    field_selection,
                    result,
                );
            },
            Selection::FragmentSpread(fragment_spread) => {
                check_fragment_spread(schema, fragment_map, seen_fragments, root_type, fragment_spread, result);
            },
            Selection::InlineFragment(inline_fragment) => {
                check_inline_fragment(schema, fragment_map, seen_fragments, root_type, inline_fragment, result);
            },
        }
        assert(result.deep_view() == before + selection_errors(*schema, frags, seen, *root_type, fields, sel));
        assert(result.deep_view() =~= start + selections_errors(*schema, frags, seen, *root_type, fields, sels.take(i + 1)));
        i = i + 1;
    }
    assert(sels.take(i as int) =~= sels);
}

fn check_selection_field<'a>(
    schema: &Schema,
    fragment_map: &FragmentMap<'a>,
    seen_fragments: &Vec<&'a String>,
    root_type_pos: Pos,
    root_type_name: &String,
    root_fields: &[FieldDefinition],
    field_selection: &'a Field,
    result: &mut Vec<CheckError>,
)
    ensures
        final(result).deep_view() == old(result).deep_view() + field_errors(
            *schema,
            fragment_map.spec_fragments(),
            seen_fragments.deep_view(),
            root_type_pos,
            root_type_name@,
            root_fields@,
            *field_selection,
        ),
    decreases unseen_fragments(fragment_map.spec_fragments(), seen_fragments.deep_view()), *field_selection, 0nat,
{
    let target_field = match find_field_in(root_fields, &field_selection.name.name) {
        None => {
            let e = CheckErrorMessage::FieldNotFound {
                field_name: field_selection.name.name.clone(),
                scope_name: root_type_name.clone(),
            }.with_pos(field_selection.name.position).with_additional_info(
                one_note(root_type_pos, CheckErrorMessage::DefinitionPos { name: root_type_name.clone() }),
            );
            push_error(result, e);
            return;
        },
        Some(f) => f,
    };
    check_directives(schema, &field_selection.directives, "FIELD", result);
    check_arguments(field_selection.name.position, &field_selection.arguments, &target_field.arguments, result);
    let ghost mid = result.deep_view();
    let target_field_type = match schema.get_type(&target_field.ty.unwrapped_type().name) {
        None => {
            push_error(result, CheckErrorMessage::TypeSystemError.with_pos(field_selection.name.position));
            return;
        },
        Some(t) => t,
    };
    match &field_selection.selection_set {
        Some(selection_set) => {
            check_selection_set(schema, fragment_map, seen_fragments, target_field_type, selection_set, result);
        },
        None => {
            if direct_fields_of_output_type(target_field_type).is_some() {
                let e = CheckErrorMessage::MustSpecifySelectionSet {
                    name: field_selection.name.name.clone(),
                }.with_pos(field_selection.name.position);
                push_error(result, e);
                return;
            }
            assert(mid + seq![] =~= mid);
        },
    }
}

fn check_fragment_spread<'a>(
    schema: &Schema,
    fragment_map: &FragmentMap<'a>,
    seen_fragments: &Vec<&'a String>,
    root_type: &TypeDefinition,
    fragment_spread: &'a FragmentSpread,
    result: &mut Vec<CheckError>,
)
    ensures
        final(result).deep_view() == old(result).deep_view() + fragment_spread_errors(
            *schema,
            fragment_map.spec_fragments(),
            seen_fragments.deep_view(),
            *root_type,
            *fragment_spread,
        ),
    decreases unseen_fragments(fragment_map.spec_fragments(), seen_fragments.deep_view()), Selection::FragmentSpread(*fragment_spread), 0nat,
{
    let ghost start = result.deep_view();
    let ghost frags = fragment_map.spec_fragments();
    let name = &fragment_spread.fragment_name.name;
    let ghost old_seen = seen_fragments.deep_view();
    if contains_name(seen_fragments, name) {
        let e = CheckErrorMessage::RecursingFragmentSpread { name: name.clone() }.with_pos(fragment_spread.position);
        push_error(result, e);
        return;
    }
    let seen_fragments = extend_seen(seen_fragments, name);
    let target = match fragment_map.get(name) {
        None => {
            let e = CheckErrorMessage::UnknownFragment { name: name.clone() }.with_pos(fragment_spread.fragment_name.position);
            push_error(result, e);
            return;
        },
        Some(t) => t,
    };
    let fragment_condition = match schema.get_type(&target.type_condition.name) {
        None => {
            // an unknown condition type is reported where the fragment is defined
            assert(start + seq![] =~= start);
            return;
        },
        Some(c) => c,
    };
    proof {
        lemma_unseen_decreases(frags, old_seen, name@);
    }
    check_fragment_spread_core(
        schema,
        fragment_map,
        &seen_fragments,
        root_type,
        fragment_spread.position,
        fragment_condition,
        &target.selection_set,
        result,
    );
}

fn check_inline_fragment<'a>(
    schema: &Schema,
    fragment_map: &FragmentMap<'a>,
    seen_fragments: &Vec<&'a String>,
    root_type: &TypeDefinition,
    inline_fragment: &'a InlineFragment,
    result: &mut Vec<CheckError>,
)
    ensures
        final(result).deep_view() == old(result).deep_view() + inline_fragment_errors(
            *schema,
            fragment_map.spec_fragments(),
            seen_fragments.deep_view(),
            *root_type,
            *inline_fragment,
        ),
    decreases unseen_fragments(fragment_map.spec_fragments(), seen_fragments.deep_view()), *inline_fragment, 0nat,
{
    match &inline_fragment.type_condition {
        None => {
            check_selection_set(schema, fragment_map, seen_fragments, root_type, &inline_fragment.selection_set, result);
        },
        Some(type_cond) => {
            let type_cond_definition = match schema.get_type(&type_cond.name) {
                None => {
                    let e = CheckErrorMessage::UnknownType { name: type_cond.name.clone() }.with_pos(type_cond.position);
                    push_error(result, e);
                    return;
                },
                Some(d) => d,
            };
            check_fragment_spread_core(
                schema,
                fragment_map,
                seen_fragments,
                root_type,
                inline_fragment.position,
                type_cond_definition,
                &inline_fragment.selection_set,
                result,
            );
        },
    }
}

fn check_fragment_spread_core<'a>(
    schema: &Schema,
    fragment_map: &FragmentMap<'a>,
    seen_fragments: &Vec<&'a String>,
    root_type: &TypeDefinition,
    spread_pos: Pos,
    fragment_condition: &TypeDefinition,
    fragment_selection_set: &'a SelectionSet,
    result: &mut Vec<CheckError>,
)
    ensures
        final(result).deep_view() == old(result).deep_view() + spread_core_errors(
            *schema,
            fragment_map.spec_fragments(),
            seen_fragments.deep_view(),
            *root_type,
            spread_pos,
            *fragment_condition,
            *fragment_selection_set,
        ),
    decreases unseen_fragments(fragment_map.spec_fragments(), seen_fragments.deep_view()), *fragment_selection_set, 1nat,
{
    if check_fragment_condition(schema, root_type, spread_pos, fragment_condition, result) {
        check_selection_set(schema, fragment_map, seen_fragments, fragment_condition, fragment_selection_set, result);
    }
}

fn count_fields_in<'a>(
    fragment_map: &FragmentMap<'a>,
    seen_fragments: &Vec<&'a String>,
    selections: &'a Vec<Selection>,
) -> (n: usize)
    ensures
        n == count_fields(fragment_map.spec_fragments(), seen_fragments.deep_view(), selections@),
        n <= 2,
    decreases unseen_fragments(fragment_map.spec_fragments(), seen_fragments.deep_view()), selections@, 0nat,
{
    let ghost frags = fragment_map.spec_fragments();
    let ghost seen = seen_fragments.deep_view();
    let mut n: usize = 0;
    let mut i: usize = 0;
    assert(selections@.take(0) =~= Seq::<Selection>::empty());
    while i < selections.len()
        invariant
            i <= selections@.len(),
            frags == fragment_map.spec_fragments(),
            seen == seen_fragments.deep_view(),
            n == count_fields(frags, seen, selections@.take(i as int)),
            n <= 2,
        decreases selections.len() - i,
    {
        assert(selections@.take(i + 1).drop_last() =~= selections@.take(i as int));
        assert(selections@.take(i + 1).last() == selections@[i as int]);
        let c = count_selection_in(fragment_map, seen_fragments, &selections[i]);
        n = if n + c > 2 { 2 } else { n + c };
        i = i + 1;
    }
    assert(selections@.take(i as int) =~= selections@);
    n
}

fn count_selection_in<'a>(
    fragment_map: &FragmentMap<'a>,
    seen_fragments: &Vec<&'a String>,
    selection: &'a Selection,
) -> (n: usize)
    ensures
        n == count_selection(fragment_map.spec_fragments(), seen_fragments.deep_view(), *selection),
        n <= 2,
    decreases unseen_fragments(fragment_map.spec_fragments(), seen_fragments.deep_view()), *selection, 0nat,
{
    match selection {
        Selection::Field(_) => 1,
        Selection::InlineFragment(inline_fragment) => count_fields_in(
            fragment_map,
            seen_fragments,
            &inline_fragment.selection_set.selections,
        ),
        Selection::FragmentSpread(fragment_spread) => {
            let name = &fragment_spread.fragment_name.name;
            if contains_name(seen_fragments, name) {
                return 0;
            }
            match fragment_map.get(name) {
                None => 0,
                Some(target) => {
                    let extended = extend_seen(seen_fragments, name);
                    proof {
                        lemma_unseen_decreases(fragment_map.spec_fragments(), seen_fragments.deep_view(), name@);
                    }
                    count_fields_in(fragment_map, &extended, &target.selection_set.selections)
                },
            }
        },
    }
}

/// Whether a selection set selects more than one field, with fragments expanded:
/// each field selection counts once (two selections of the same field count
/// twice), inline fragments count their fields, and a spread counts the fields
/// of its fragment unless the fragment is unknown or already being expanded.
pub fn selection_set_has_more_than_one_fields<'a>(
    fragment_map: &FragmentMap<'a>,
    selection_set: &'a SelectionSet,
) -> (r: bool)
    ensures
        r == (count_fields(fragment_map.spec_fragments(), seq![], selection_set.selections@) > 1),
{
    let seen: Vec<&'a String> = Vec::new();
    assert(seen.deep_view() =~= Seq::<Seq<char>>::empty());
    count_fields_in(fragment_map, &seen, &selection_set.selections) > 1
}

/// The kind of the named type at the core of a type reference, or `None` when
/// the schema does not define it.
fn inout_kind_of_type(schema: &Schema, ty: &crate::ast::Type) -> (r: Option<TypeKind>)
    ensures
        match schema.spec_get_type(ty.spec_unwrapped().name@) {
            Some(t) => r == Some(spec_kind_of(t)),
            None => r is None,
        },
{
    match schema.get_type(&ty.unwrapped_type().name) {
        Some(t) => Some(kind_of_type_definition(t)),
        None => None,
    }
}

fn check_variables_definition(
    schema: &Schema,
    variables: &VariablesDefinition,
    result: &mut Vec<CheckError>,
)
    ensures
        final(result).deep_view() == old(result).deep_view() + variables_errors(*schema, variables.definitions@),
{
    let ghost start = result.deep_view();
    let ghost defs = variables.definitions@;
    let mut seen_variables: Vec<&String> = Vec::new();
    let mut i: usize = 0;
    assert(defs.take(0) =~= Seq::<VariableDefinition>::empty());
    assert(start + seq![] =~= start);
    while i < variables.definitions.len()
        invariant
            i <= defs.len(),
            defs == variables.definitions@,
            result.deep_view() == start + variables_errors(*schema, defs.take(i as int)),
            forall|x: Seq<char>|
                seen_variables.deep_view().contains(x) <==> exists|k: int|
                    0 <= k < i && #[trigger] defs[k].name.name@ == x,
        decreases defs.len() - i,
    {
        let v = &variables.definitions[i];
        let ghost earlier = defs.take(i as int);
        assert(defs.take(i + 1).drop_last() =~= earlier);
        assert(defs.take(i + 1).last() == *v);
        assert((exists|k: int| 0 <= k < earlier.len() && #[trigger] earlier[k].name.name@ == v.name.name@)
            <==> seen_variables.deep_view().contains(v.name.name@)) by {
            if seen_variables.deep_view().contains(v.name.name@) {
                let k = choose|k: int| 0 <= k < i && #[trigger] defs[k].name.name@ == v.name.name@;
                assert(earlier[k] == defs[k]);
            }
            if exists|k: int| 0 <= k < earlier.len() && #[trigger] earlier[k].name.name@ == v.name.name@ {
                let k = choose|k: int| 0 <= k < earlier.len() && #[trigger] earlier[k].name.name@ == v.name.name@;
                assert(defs[k] == earlier[k]);
            }
        }
        let ghost seen_before = seen_variables.deep_view();
        if contains_name(&seen_variables, &v.name.name) {
            let e = CheckErrorMessage::DuplicatedVariableName { name: v.name.name.clone() }.with_pos(v.pos);
            push_error(result, e);
        } else {
            seen_variables.push(&v.name.name);
            assert(seen_variables.deep_view() =~= seen_before.push(v.name.name@));
        }
        assert forall|x: Seq<char>|
            seen_variables.deep_view().contains(x) <==> exists|k: int|
                0 <= k < i + 1 && #[trigger] defs[k].name.name@ == x by {
            if seen_variables.deep_view().contains(x) {
                if seen_before.contains(x) {
                } else {
                    assert(x == v.name.name@);
                    assert(defs[i as int].name.name@ == x);
                }
            }
            if exists|k: int| 0 <= k < i + 1 && #[trigger] defs[k].name.name@ == x {
                let k = choose|k: int| 0 <= k < i + 1 && #[trigger] defs[k].name.name@ == x;
                if k < i {
                    assert(seen_before.contains(x));
                    let j = choose|j: int| 0 <= j < seen_before.len() && seen_before[j] == x;
                    assert(seen_variables.deep_view()[j] == x);
                } else if seen_variables.deep_view() != seen_before {
                    assert(seen_variables.deep_view()[seen_before.len() as int] == x);
                }
            }
        }
        match inout_kind_of_type(schema, &v.ty) {
            None => {
                let e = CheckErrorMessage::UnknownType {
                    name: v.ty.unwrapped_type().name.clone(),
                }.with_pos(v.ty.position());
                push_error(result, e);
            },
            Some(t) => {
                let is_input = match t {
                    TypeKind::Scalar | TypeKind::Enum | TypeKind::InputObject => true,
                    _ => false,
                };
                if !is_input {
                    let e = CheckErrorMessage::NoOutputType {
                        name: v.ty.unwrapped_type().name.clone(),
                    }.with_pos(v.ty.position());
                    push_error(result, e);
                }
            },
        }
        assert(result.deep_view() =~= start + variables_errors(*schema, defs.take(i + 1)));
        i = i + 1;
    }
    assert(defs.take(i as int) =~= defs);
}

fn check_fragment_definition(schema: &Schema, op: &FragmentDefinition, result: &mut Vec<CheckError>)
    ensures
        final(result).deep_view() == old(result).deep_view() + fragment_definition_errors(*schema, *op),
{
    let target = match schema.get_type(&op.type_condition.name) {
        None => {
            let e = CheckErrorMessage::UnknownType { name: op.type_condition.name.clone() }.with_pos(
                op.type_condition.position,
            );
            push_error(result, e);
            return;
        },
        Some(t) => t,
    };
    match target {
        TypeDefinition::Object(_) | TypeDefinition::Interface(_) | TypeDefinition::Union(_) => {
            assert(old(result).deep_view() + seq![] =~= old(result).deep_view());
        },
        _ => {
            let e = CheckErrorMessage::InvalidFragmentTarget { name: op.type_condition.name.clone() }.with_pos(
                op.type_condition.position,
            ).with_additional_info(
                one_note(target.position(), CheckErrorMessage::DefinitionPos { name: target.name().name.clone() }),
            );
            push_error(result, e);
        },
    }
}

/// The root type entry that the root types give for an operation type.
fn operation_type_from_root_types(root_types: &RootTypes, op: OperationType) -> (r: &Option<Ident>)
    ensures
        *r == root_type_entry(*root_types, op),
{
    match op {
        OperationType::Query => &root_types.query_type,
        OperationType::Mutation => &root_types.mutation_type,
        OperationType::Subscription => &root_types.subscription_type,
    }
}

fn check_operation<'a>(
    schema: &Schema,
    fragment_map: &FragmentMap<'a>,
    op: &'a OperationDefinition,
    result: &mut Vec<CheckError>,
)
    ensures
        final(result).deep_view() == old(result).deep_view() + operation_errors(
            *schema,
            fragment_map.spec_fragments(),
            *op,
        ),
{
    let ghost start = result.deep_view();
    let ghost frags = fragment_map.spec_fragments();
    let root_types = schema.root_types();
    let root_types_position = schema.root_types_position();
    let entry = operation_type_from_root_types(root_types, op.operation_type);
    if !root_types_position.builtin {
        // With an explicit schema definition, the operation's root type must be declared there.
        if entry.is_none() {
            let e = CheckErrorMessage::NoRootType { operation_type: op.operation_type }.with_pos(
                op.position,
            ).with_additional_info(one_note(root_types_position, CheckErrorMessage::RootTypesAreDefinedHere));
            push_error(result, e);
            return;
        }
    }
    let root_type_name: String = match entry {
        Some(n) => n.name.clone(),
        None => match op.operation_type {
            OperationType::Query => "Query".to_owned(),
            OperationType::Mutation => "Mutation".to_owned(),
            OperationType::Subscription => "Subscription".to_owned(),
        },
    };
    let root_type = match schema.get_type(&root_type_name) {
        None => {
            let e = CheckErrorMessage::UnknownType { name: root_type_name }.with_pos(op.position);
            push_error(result, e);
            return;
        },
        Some(t) => t,
    };
    let location = match op.operation_type {
        OperationType::Query => "QUERY",
        OperationType::Mutation => "MUTATION",
        OperationType::Subscription => "SUBSCRIPTION",
    };
    check_directives(schema, &op.directives, location, result);
    let ghost after_directives = result.deep_view();
    if let Some(variables_definition) = &op.variables_definition {
        check_variables_definition(schema, variables_definition, result);
    } else {
        assert(after_directives + seq![] =~= after_directives);
    }
    let ghost after_variables = result.deep_view();
    if op.operation_type == OperationType::Subscription && selection_set_has_more_than_one_fields(
        fragment_map,
        &op.selection_set,
    ) {
        push_error(result, CheckErrorMessage::SubscriptionMustHaveExactlyOneRootField.with_pos(op.position));
    } else {
        assert(after_variables + seq![] =~= after_variables);
    }
    let seen_fragments: Vec<&'a String> = Vec::new();
    assert(seen_fragments.deep_view() =~= Seq::<Seq<char>>::empty());
    check_selection_set(schema, fragment_map, &seen_fragments, root_type, &op.selection_set, result);
    assert(result.deep_view() =~= start + operation_errors(*schema, frags, *op));
}

fn find_operation_named<'b>(defs: &'b Vec<ExecutableDefinition>, idx: usize, name: &String) -> (r: Option<
    &'b ExecutableDefinition,
>)
    requires
        idx <= defs@.len(),
    ensures
        opt_ref_is(r, first_operation_named(defs@.take(idx as int), name@)),
{
    let ghost pre = defs@.take(idx as int);
    let mut j: usize = 0;
    assert(pre.skip(0) =~= pre);
    while j < idx
        invariant
            j <= idx <= defs@.len(),
            pre == defs@.take(idx as int),
            first_operation_named(pre, name@) == first_operation_named(pre.skip(j as int), name@),
        decreases idx - j,
    {
        assert(pre.skip(j as int)[0] == defs@[j as int]);
        assert(pre.skip(j as int).drop_first() =~= pre.skip(j + 1));
        if let ExecutableDefinition::OperationDefinition(other) = &defs[j] {
            if let Some(n) = &other.name {
                if n.name == *name {
                    return Some(&defs[j]);
                }
            }
        }
        j = j + 1;
    }
    assert(pre.skip(j as int) =~= Seq::<ExecutableDefinition>::empty());
    None
}

fn find_fragment_named<'b>(defs: &'b Vec<ExecutableDefinition>, idx: usize, name: &String) -> (r: Option<
    &'b ExecutableDefinition,
>)
    requires
        idx <= defs@.len(),
    ensures
        opt_ref_is(r, first_fragment_named(defs@.take(idx as int), name@)),
{
    let ghost pre = defs@.take(idx as int);
    let mut j: usize = 0;
    assert(pre.skip(0) =~= pre);
    while j < idx
        invariant
            j <= idx <= defs@.len(),
            pre == defs@.take(idx as int),
            first_fragment_named(pre, name@) == first_fragment_named(pre.skip(j as int), name@),
        decreases idx - j,
    {
        assert(pre.skip(j as int)[0] == defs@[j as int]);
        assert(pre.skip(j as int).drop_first() =~= pre.skip(j + 1));
        if let ExecutableDefinition::FragmentDefinition(other) = &defs[j] {
            if other.name.name == *name {
                return Some(&defs[j]);
            }
        }
        j = j + 1;
    }
    assert(pre.skip(j as int) =~= Seq::<ExecutableDefinition>::empty());
    None
}

/// Checks an operation document against a schema and returns every error, in
/// document order.
///
/// For each operation: an anonymous operation must be the only operation of
/// the document, a name must not repeat an earlier operation's, and the
/// operation itself is checked (root type, directives, variables, the single
/// root field of a subscription, and its selection set, with fragments
/// followed where they are spread). For each fragment: its name must not
/// repeat an earlier fragment's, and its condition must be an object,
/// interface or union type of the schema.
pub fn check_operation_document(schema: &Schema, document: &OperationDocument) -> (r: Vec<CheckError>)
    ensures
        r.deep_view() == document_errors(*schema, *document),
{
    let mut result: Vec<CheckError> = Vec::new();
    let fragment_map = generate_fragment_map(document);
    let ghost defs = document.definitions@;

    let mut operation_num: usize = 0;
    let mut k: usize = 0;
    while k < document.definitions.len()
        invariant
            k <= defs.len(),
            defs == document.definitions@,
            operation_num == operation_count(defs.take(k as int)),
            operation_num <= k,
        decreases defs.len() - k,
    {
        assert(defs.take(k + 1).drop_last() =~= defs.take(k as int));
        if let ExecutableDefinition::OperationDefinition(_) = &document.definitions[k] {
            operation_num = operation_num + 1;
        }
        k = k + 1;
    }
    assert(defs.take(k as int) =~= defs);

    let mut idx: usize = 0;
    assert(result.deep_view() =~= Seq::<CheckErrorView>::empty());
    while idx < document.definitions.len()
        invariant
            idx <= defs.len(),
            defs == document.definitions@,
            operation_num == operation_count(defs),
            fragment_map.spec_fragments() == fragments_of(defs),
            result.deep_view() == definitions_errors(*schema, defs, idx as nat),
        decreases defs.len() - idx,
    {
        match &document.definitions[idx] {
            ExecutableDefinition::OperationDefinition(op) => {
                match &op.name {
                    None => {
                        // An anonymous operation must be the only operation of the document.
                        if operation_num != 1 {
                            push_error(&mut result, CheckErrorMessage::UnNamedOperationMustBeSingle.with_pos(op.position));
                        }
                    },
                    Some(name) => {
                        if let Some(other) = find_operation_named(&document.definitions, idx, &name.name) {
                            let e = CheckErrorMessage::DuplicateOperationName {
                                operation_type: op.operation_type,
                            }.with_pos(name.position).with_additional_info(
                                one_note(other.position(), CheckErrorMessage::AnotherDefinitionPos { name: name.name.clone() }),
                            );
                            push_error(&mut result, e);
                        }
                    },
                }
                check_operation(schema, &fragment_map, op, &mut result);
            },
            ExecutableDefinition::FragmentDefinition(def) => {
                if let Some(other) = find_fragment_named(&document.definitions, idx, &def.name.name) {
                    let e = CheckErrorMessage::DuplicateFragmentName {
                        other_position: other.position(),
                    }.with_pos(def.name.position);
                    push_error(&mut result, e);
                }
                check_fragment_definition(schema, def, &mut result);
            },
        }
        assert(result.deep_view() =~= definitions_errors(*schema, defs, (idx + 1) as nat));
        idx = idx + 1;
    }
    result
}

// ---------------------------------------------------------------------------
// Laws
// ---------------------------------------------------------------------------

/// A type that has fields to select: an object, interface or union type.
pub open spec fn is_composite(t: TypeDefinition) -> bool {
    t is Object || t is Interface || t is Union
}

/// A fragment whose condition is the very type it is spread on is never
/// reported as unable to match; the one exception is a union type without
/// members.
pub proof fn lemma_condition_on_own_type(schema: Schema, t: TypeDefinition, spread_pos: Pos)
    requires
        !(t matches TypeDefinition::Union(u) && u.members@.len() == 0),
    ensures
        match fragment_condition_errors(schema, t, spread_pos, t) {
            Some(errs) => errs.len() == 0,
            None => true,
        },
{
    if let TypeDefinition::Union(u) = t {
        assert(idents_contain(u.members@, u.members@[0].name@));
        assert(unions_overlap(u.members@, u.members@));
    }
}

/// Between an object, an interface and a union type of different kinds, it
/// does not matter which is the scope and which is the fragment's condition:
/// the same errors are reported either way.
pub proof fn lemma_condition_symmetric(schema: Schema, a: TypeDefinition, b: TypeDefinition, spread_pos: Pos)
    requires
        is_composite(a),
        is_composite(b),
        spec_kind_of(a) != spec_kind_of(b),
    ensures
        fragment_condition_errors(schema, a, spread_pos, b) == fragment_condition_errors(schema, b, spread_pos, a),
{
}

/// A subscription that selects more than one field (fragments included) is
/// reported, once its root type is found.
pub proof fn lemma_subscription_with_several_fields_reported(
    schema: Schema,
    frags: Seq<FragmentDefinition>,
    op: OperationDefinition,
)
    requires
        op.operation_type == OperationType::Subscription,
        schema.spec_root_types_position().builtin || root_type_entry(schema.spec_root_types(), op.operation_type) is Some,
        schema.spec_get_type(
            match root_type_entry(schema.spec_root_types(), op.operation_type) {
                Some(n) => n.name@,
                None => default_root_name(op.operation_type),
            },
        ) is Some,
        count_fields(frags, seq![], op.selection_set.selections@) > 1,
    ensures
        operation_errors(schema, frags, op).contains(
            error_at(op.position, MessageView::SubscriptionMustHaveExactlyOneRootField),
        ),
{
    let root_name = match root_type_entry(schema.spec_root_types(), op.operation_type) {
        Some(n) => n.name@,
        None => default_root_name(op.operation_type),
    };
    let root = schema.spec_get_type(root_name).unwrap();
    let a = directives_errors(schema, op.directives@, operation_location(op.operation_type));
    let b = match op.variables_definition {
        Some(v) => variables_errors(schema, v.definitions@),
        None => seq![],
    };
    let e = error_at(op.position, MessageView::SubscriptionMustHaveExactlyOneRootField);
    let c = selection_set_errors(schema, frags, seq![], root, op.selection_set);
    assert(operation_errors(schema, frags, op) == a + b + seq![e] + c);
    assert((a + b + seq![e] + c)[(a.len() + b.len()) as int] == e);
}

/// The condition check reports, as its first error, that the fragment can
/// never match.
pub open spec fn reports_never_matches(errs: Option<Seq<CheckErrorView>>) -> bool {
    errs matches Some(e) && e.len() > 0 && e[0].message is FragmentConditionNeverMatches
}

proof fn lemma_unions_overlap_symmetric(m1: Seq<Ident>, m2: Seq<Ident>)
    ensures
        unions_overlap(m1, m2) == unions_overlap(m2, m1),
{
    if unions_overlap(m1, m2) {
        let k = choose|k: int| 0 <= k < m2.len() && idents_contain(m1, #[trigger] m2[k].name@);
        let j = choose|j: int| 0 <= j < m1.len() && #[trigger] m1[j].name@ == m2[k].name@;
        assert(idents_contain(m2, m1[j].name@));
    }
    if unions_overlap(m2, m1) {
        let k = choose|k: int| 0 <= k < m1.len() && idents_contain(m2, #[trigger] m1[k].name@);
        let j = choose|j: int| 0 <= j < m2.len() && #[trigger] m2[j].name@ == m1[k].name@;
        assert(idents_contain(m1, m2[j].name@));
    }
}

/// Whether a fragment is reported as never matching does not depend on which
/// of two object, interface or union types is the scope and which is the
/// condition.
pub proof fn lemma_never_matches_symmetric(schema: Schema, a: TypeDefinition, b: TypeDefinition, spread_pos: Pos)
    requires
        is_composite(a),
        is_composite(b),
    ensures
        reports_never_matches(fragment_condition_errors(schema, a, spread_pos, b))
            == reports_never_matches(fragment_condition_errors(schema, b, spread_pos, a)),
{
    match (a, b) {
        (TypeDefinition::Interface(i1), TypeDefinition::Interface(i2)) => {
            let ts = schema.spec_types();
            assert(some_object_implements_both(ts, i1.name.name@, i2.name.name@)
                == some_object_implements_both(ts, i2.name.name@, i1.name.name@)) by {
                if some_object_implements_both(ts, i1.name.name@, i2.name.name@) {
                    let k = choose|k: int| 0 <= k < ts.len() && match #[trigger] ts[k] {
                        TypeDefinition::Object(o) => idents_contain(o.implements@, i1.name.name@) && idents_contain(o.implements@, i2.name.name@),
                        _ => false,
                    };
                    assert(match ts[k] {
                        TypeDefinition::Object(o) => idents_contain(o.implements@, i2.name.name@) && idents_contain(o.implements@, i1.name.name@),
                        _ => false,
                    });
                }
                if some_object_implements_both(ts, i2.name.name@, i1.name.name@) {
                    let k = choose|k: int| 0 <= k < ts.len() && match #[trigger] ts[k] {
                        TypeDefinition::Object(o) => idents_contain(o.implements@, i2.name.name@) && idents_contain(o.implements@, i1.name.name@),
                        _ => false,
                    };
                    assert(match ts[k] {
                        TypeDefinition::Object(o) => idents_contain(o.implements@, i1.name.name@) && idents_contain(o.implements@, i2.name.name@),
                        _ => false,
                    });
                }
            }
        },
        (TypeDefinition::Union(u1), TypeDefinition::Union(u2)) => {
            lemma_unions_overlap_symmetric(u1.members@, u2.members@);
        },
        _ => {
            if spec_kind_of(a) != spec_kind_of(b) {
                lemma_condition_symmetric(schema, a, b, spread_pos);
            }
        },
    }
}

proof fn lemma_selections_append(
    schema: Schema,
    frags: Seq<FragmentDefinition>,
    seen: Seq<Seq<char>>,
    root: TypeDefinition,
    fields: Seq<FieldDefinition>,
    a: Seq<Selection>,
    b: Seq<Selection>,
)
    ensures
        selections_errors(schema, frags, seen, root, fields, a + b) == selections_errors(
            schema,
            frags,
            seen,
            root,
            fields,
            a,
        ) + selections_errors(schema, frags, seen, root, fields, b),
    decreases b.len(),
{
    if b.len() == 0 {
        assert(a + b =~= a);
        assert(selections_errors(schema, frags, seen, root, fields, a) + seq![] =~= selections_errors(
            schema,
            frags,
            seen,
            root,
            fields,
            a,
        ));
    } else {
        assert((a + b).drop_last() =~= a + b.drop_last());
        assert((a + b).last() == b.last());
        lemma_selections_append(schema, frags, seen, root, fields, a, b.drop_last());
    }
}

/// The selections of a selection set are checked one after another: checking
/// a set whose selections are those of `ssa` followed by those of `ssb` reports
/// the errors of `ssa` followed by those of `ssb`.
pub proof fn lemma_selection_set_split(
    schema: Schema,
    frags: Seq<FragmentDefinition>,
    seen: Seq<Seq<char>>,
    root: TypeDefinition,
    ss: SelectionSet,
    ssa: SelectionSet,
    ssb: SelectionSet,
)
    requires
        spec_direct_fields(root) is Some,
        ss.selections@ == ssa.selections@ + ssb.selections@,
    ensures
        selection_set_errors(schema, frags, seen, root, ss) == selection_set_errors(schema, frags, seen, root, ssa)
            + selection_set_errors(schema, frags, seen, root, ssb),
{
    lemma_selections_append(
        schema,
        frags,
        seen,
        root,
        spec_direct_fields(root).unwrap(),
        ssa.selections@,
        ssb.selections@,
    );
}

/// An inline fragment without a type condition is checked as its selection
/// set, selected on the scope's type.
pub proof fn lemma_inline_fragment_without_condition(
    schema: Schema,
    frags: Seq<FragmentDefinition>,
    seen: Seq<Seq<char>>,
    root: TypeDefinition,
    i: InlineFragment,
)
    requires
        i.type_condition is None,
    ensures
        inline_fragment_errors(schema, frags, seen, root, i) == selection_set_errors(
            schema,
            frags,
            seen,
            root,
            i.selection_set,
        ),
{
}

/// An inline fragment whose type condition the schema defines is checked as a
/// fragment with that condition, spread where the inline fragment stands.
pub proof fn lemma_inline_fragment_with_condition(
    schema: Schema,
    frags: Seq<FragmentDefinition>,
    seen: Seq<Seq<char>>,
    root: TypeDefinition,
    i: InlineFragment,
    cond: TypeDefinition,
)
    requires
        i.type_condition matches Some(tc) && schema.spec_get_type(tc.name@) == Some(cond),
    ensures
        inline_fragment_errors(schema, frags, seen, root, i) == spread_core_errors(
            schema,
            frags,
            seen,
            root,
            i.position,
            cond,
            i.selection_set,
        ),
{
}

/// No fragment spread among the selections (nested ones included) names `name`.
pub open spec fn selections_avoid(name: Seq<char>, sels: Seq<Selection>) -> bool
    decreases sels, 0nat,
{
    if sels.len() == 0 {
        true
    } else {
        selections_avoid(name, sels.drop_last()) && selection_avoids(name, sels.last())
    }
}

/// No fragment spread in the selection (nested ones included) names `name`.
pub open spec fn selection_avoids(name: Seq<char>, sel: Selection) -> bool
    decreases sel, 1nat,
{
    match sel {
        Selection::Field(f) => match f.selection_set {
            Some(ss) => selections_avoid(name, ss.selections@),
            None => true,
        },
        Selection::FragmentSpread(s) => s.fragment_name.name@ != name,
        Selection::InlineFragment(i) => selections_avoid(name, i.selection_set.selections@),
    }
}

/// Two fragment maps that agree on every name but `name`.
pub open spec fn agree_except(
    m1: Map<Seq<char>, FragmentDefinition>,
    m2: Map<Seq<char>, FragmentDefinition>,
    name: Seq<char>,
) -> bool {
    forall|k: Seq<char>|
        k != name ==> (#[trigger] m1.dom().contains(k) == m2.dom().contains(k)) && (m1.dom().contains(k)
            ==> m1[k] == m2[k])
}

/// No fragment of the map spreads `name`.
pub open spec fn fragments_avoid(frags: Seq<FragmentDefinition>, name: Seq<char>) -> bool {
    forall|k: Seq<char>|
        #[trigger] map_of_fragments(frags).dom().contains(k) ==> selections_avoid(
            name,
            map_of_fragments(frags)[k].selection_set.selections@,
        )
}

proof fn lemma_same_selection_set(
    schema: Schema,
    f1: Seq<FragmentDefinition>,
    f2: Seq<FragmentDefinition>,
    name: Seq<char>,
    seen: Seq<Seq<char>>,
    root: TypeDefinition,
    ss: SelectionSet,
)
    requires
        agree_except(map_of_fragments(f1), map_of_fragments(f2), name),
        fragments_avoid(f1, name),
        selections_avoid(name, ss.selections@),
    ensures
        selection_set_errors(schema, f1, seen, root, ss) == selection_set_errors(schema, f2, seen, root, ss),
    decreases unseen_fragments(f1, seen), ss, 0nat,
{
    if let Some(fields) = spec_direct_fields(root) {
        lemma_same_selections(schema, f1, f2, name, seen, root, fields, ss.selections@);
    }
}

proof fn lemma_same_selections(
    schema: Schema,
    f1: Seq<FragmentDefinition>,
    f2: Seq<FragmentDefinition>,
    name: Seq<char>,
    seen: Seq<Seq<char>>,
    root: TypeDefinition,
    fields: Seq<FieldDefinition>,
    sels: Seq<Selection>,
)
    requires
        agree_except(map_of_fragments(f1), map_of_fragments(f2), name),
        fragments_avoid(f1, name),
        selections_avoid(name, sels),
    ensures
        selections_errors(schema, f1, seen, root, fields, sels) == selections_errors(
            schema,
            f2,
            seen,
            root,
            fields,
            sels,
        ),
    decreases unseen_fragments(f1, seen), sels, 0nat,
{
    if sels.len() > 0 {
        lemma_same_selections(schema, f1, f2, name, seen, root, fields, sels.drop_last());
        lemma_same_selection(schema, f1, f2, name, seen, root, fields, sels.last());
    }
}

proof fn lemma_same_selection(
    schema: Schema,
    f1: Seq<FragmentDefinition>,
    f2: Seq<FragmentDefinition>,
    name: Seq<char>,
    seen: Seq<Seq<char>>,
    root: TypeDefinition,
    fields: Seq<FieldDefinition>,
    sel: Selection,
)
    requires
        agree_except(map_of_fragments(f1), map_of_fragments(f2), name),
        fragments_avoid(f1, name),
        selection_avoids(name, sel),
    ensures
        selection_errors(schema, f1, seen, root, fields, sel) == selection_errors(schema, f2, seen, root, fields, sel),
    decreases unseen_fragments(f1, seen), sel, 1nat,
{
    match sel {
        Selection::Field(f) => {
            lemma_same_field(schema, f1, f2, name, seen, root.spec_position(), root.spec_name().name@, fields, f);
        },
        Selection::FragmentSpread(sp) => {
            lemma_same_spread(schema, f1, f2, name, seen, root, sp);
        },
        Selection::InlineFragment(i) => {
            lemma_same_inline(schema, f1, f2, name, seen, root, i);
        },
    }
}

proof fn lemma_same_field(
    schema: Schema,
    f1: Seq<FragmentDefinition>,
    f2: Seq<FragmentDefinition>,
    name: Seq<char>,
    seen: Seq<Seq<char>>,
    root_pos: Pos,
    root_name: Seq<char>,
    fields: Seq<FieldDefinition>,
    f: Field,
)
    requires
        agree_except(map_of_fragments(f1), map_of_fragments(f2), name),
        fragments_avoid(f1, name),
        selection_avoids(name, Selection::Field(f)),
    ensures
        field_errors(schema, f1, seen, root_pos, root_name, fields, f) == field_errors(
            schema,
            f2,
            seen,
            root_pos,
            root_name,
            fields,
            f,
        ),
    decreases unseen_fragments(f1, seen), f, 0nat,
{
    if let Some(target) = find_field(fields, f.name.name@) {
        if let Some(target_type) = schema.spec_get_type(target.ty.spec_unwrapped().name@) {
            if let Some(ss) = f.selection_set {
                lemma_same_selection_set(schema, f1, f2, name, seen, target_type, ss);
            }
        }
    }
}

proof fn lemma_same_spread(
    schema: Schema,
    f1: Seq<FragmentDefinition>,
    f2: Seq<FragmentDefinition>,
    name: Seq<char>,
    seen: Seq<Seq<char>>,
    root: TypeDefinition,
    s: FragmentSpread,
)
    requires
        agree_except(map_of_fragments(f1), map_of_fragments(f2), name),
        fragments_avoid(f1, name),
        selection_avoids(name, Selection::FragmentSpread(s)),
    ensures
        fragment_spread_errors(schema, f1, seen, root, s) == fragment_spread_errors(schema, f2, seen, root, s),
    decreases unseen_fragments(f1, seen), Selection::FragmentSpread(s), 0nat,
{
    let m = s.fragment_name.name@;
    let m1 = map_of_fragments(f1);
    assert(m1.dom().contains(m) == map_of_fragments(f2).dom().contains(m));
    if !seen.contains(m) && m1.dom().contains(m) {
        let target = m1[m];
        assert(map_of_fragments(f2)[m] == target);
        assert(selections_avoid(name, target.selection_set.selections@));
        if let Some(cond) = schema.spec_get_type(target.type_condition.name@) {
            lemma_unseen_decreases(f1, seen, m);
            lemma_same_core(schema, f1, f2, name, seen.push(m), root, s.position, cond, target.selection_set);
        }
    }
}

proof fn lemma_same_inline(
    schema: Schema,
    f1: Seq<FragmentDefinition>,
    f2: Seq<FragmentDefinition>,
    name: Seq<char>,
    seen: Seq<Seq<char>>,
    root: TypeDefinition,
    i: InlineFragment,
)
    requires
        agree_except(map_of_fragments(f1), map_of_fragments(f2), name),
        fragments_avoid(f1, name),
        selection_avoids(name, Selection::InlineFragment(i)),
    ensures
        inline_fragment_errors(schema, f1, seen, root, i) == inline_fragment_errors(schema, f2, seen, root, i),
    decreases unseen_fragments(f1, seen), i, 0nat,
{
    match i.type_condition {
        None => {
            lemma_same_selection_set(schema, f1, f2, name, seen, root, i.selection_set);
        },
        Some(tc) => {
            if let Some(cond) = schema.spec_get_type(tc.name@) {
                lemma_same_core(schema, f1, f2, name, seen, root, i.position, cond, i.selection_set);
            }
        },
    }
}

proof fn lemma_same_core(
    schema: Schema,
    f1: Seq<FragmentDefinition>,
    f2: Seq<FragmentDefinition>,
    name: Seq<char>,
    seen: Seq<Seq<char>>,
    root: TypeDefinition,
    spread_pos: Pos,
    cond: TypeDefinition,
    ss: SelectionSet,
)
    requires
        agree_except(map_of_fragments(f1), map_of_fragments(f2), name),
        fragments_avoid(f1, name),
        selections_avoid(name, ss.selections@),
    ensures
        spread_core_errors(schema, f1, seen, root, spread_pos, cond, ss) == spread_core_errors(
            schema,
            f2,
            seen,
            root,
            spread_pos,
            cond,
            ss,
        ),
    decreases unseen_fragments(f1, seen), ss, 1nat,
{
    lemma_same_selection_set(schema, f1, f2, name, seen, cond, ss);
}

proof fn lemma_same_count(
    f1: Seq<FragmentDefinition>,
    f2: Seq<FragmentDefinition>,
    name: Seq<char>,
    seen: Seq<Seq<char>>,
    sels: Seq<Selection>,
)
    requires
        agree_except(map_of_fragments(f1), map_of_fragments(f2), name),
        fragments_avoid(f1, name),
        selections_avoid(name, sels),
    ensures
        count_fields(f1, seen, sels) == count_fields(f2, seen, sels),
    decreases unseen_fragments(f1, seen), sels, 0nat,
{
    if sels.len() > 0 {
        lemma_same_count(f1, f2, name, seen, sels.drop_last());
        lemma_same_count_selection(f1, f2, name, seen, sels.last());
    }
}

proof fn lemma_same_count_selection(
    f1: Seq<FragmentDefinition>,
    f2: Seq<FragmentDefinition>,
    name: Seq<char>,
    seen: Seq<Seq<char>>,
    sel: Selection,
)
    requires
        agree_except(map_of_fragments(f1), map_of_fragments(f2), name),
        fragments_avoid(f1, name),
        selection_avoids(name, sel),
    ensures
        count_selection(f1, seen, sel) == count_selection(f2, seen, sel),
    decreases unseen_fragments(f1, seen), sel, 0nat,
{
    match sel {
        Selection::Field(_) => {},
        Selection::InlineFragment(i) => {
            lemma_same_count(f1, f2, name, seen, i.selection_set.selections@);
        },
        Selection::FragmentSpread(sp) => {
            let m = sp.fragment_name.name@;
            let m1 = map_of_fragments(f1);
            assert(m1.dom().contains(m) == map_of_fragments(f2).dom().contains(m));
            if !seen.contains(m) && m1.dom().contains(m) {
                assert(map_of_fragments(f2)[m] == m1[m]);
                assert(selections_avoid(name, m1[m].selection_set.selections@));
                lemma_unseen_decreases(f1, seen, m);
                lemma_same_count(f1, f2, name, seen.push(m), m1[m].selection_set.selections@);
            }
        },
    }
}

proof fn lemma_fragments_of_append(a: Seq<ExecutableDefinition>, b: Seq<ExecutableDefinition>)
    ensures
        fragments_of(a + b) == fragments_of(a) + fragments_of(b),
    decreases b.len(),
{
    if b.len() == 0 {
        assert(a + b =~= a);
        assert(fragments_of(a) + fragments_of(b) =~= fragments_of(a));
    } else {
        assert((a + b).drop_last() =~= a + b.drop_last());
        assert((a + b).last() == b.last());
        lemma_fragments_of_append(a, b.drop_last());
        match b.last() {
            ExecutableDefinition::FragmentDefinition(f) => {
                assert(fragments_of(a) + fragments_of(b.drop_last()).push(f) =~= (fragments_of(a)
                    + fragments_of(b.drop_last())).push(f));
            },
            _ => {},
        }
    }
}

proof fn lemma_map_insert_agrees(a: Seq<FragmentDefinition>, x: FragmentDefinition, b: Seq<FragmentDefinition>)
    ensures
        agree_except(map_of_fragments(a + b), map_of_fragments(a.push(x) + b), x.name.name@),
    decreases b.len(),
{
    if b.len() == 0 {
        assert(a + b =~= a);
        assert(a.push(x) + b =~= a.push(x));
        assert(a.push(x).drop_last() =~= a);
    } else {
        assert((a + b).drop_last() =~= a + b.drop_last());
        assert((a.push(x) + b).drop_last() =~= a.push(x) + b.drop_last());
        assert((a + b).last() == b.last());
        assert((a.push(x) + b).last() == b.last());
        lemma_map_insert_agrees(a, x, b.drop_last());
    }
}

proof fn lemma_operation_count_append(a: Seq<ExecutableDefinition>, b: Seq<ExecutableDefinition>)
    ensures
        operation_count(a + b) == operation_count(a) + operation_count(b),
    decreases b.len(),
{
    if b.len() == 0 {
        assert(a + b =~= a);
    } else {
        assert((a + b).drop_last() =~= a + b.drop_last());
        assert((a + b).last() == b.last());
        lemma_operation_count_append(a, b.drop_last());
    }
}

proof fn lemma_first_named_skip_fragment(
    a: Seq<ExecutableDefinition>,
    fd: FragmentDefinition,
    b: Seq<ExecutableDefinition>,
    name: Seq<char>,
)
    ensures
        first_operation_named(a.push(ExecutableDefinition::FragmentDefinition(fd)) + b, name)
            == first_operation_named(a + b, name),
        fd.name.name@ != name ==> first_fragment_named(
            a.push(ExecutableDefinition::FragmentDefinition(fd)) + b,
            name,
        ) == first_fragment_named(a + b, name),
    decreases a.len(),
{
    let x = ExecutableDefinition::FragmentDefinition(fd);
    if a.len() == 0 {
        assert(a.push(x) + b =~= seq![x] + b);
        assert((seq![x] + b).drop_first() =~= b);
        assert(a + b =~= b);
    } else {
        assert((a.push(x) + b)[0] == a[0]);
        assert((a + b)[0] == a[0]);
        assert((a.push(x) + b).drop_first() =~= a.drop_first().push(x) + b);
        assert((a + b).drop_first() =~= a.drop_first() + b);
        lemma_first_named_skip_fragment(a.drop_first(), fd, b, name);
    }
}

proof fn lemma_no_fragment_named(s: Seq<ExecutableDefinition>, name: Seq<char>)
    requires
        forall|i: int|
            0 <= i < s.len() ==> !(#[trigger] s[i] matches ExecutableDefinition::FragmentDefinition(f)
                && f.name.name@ == name),
    ensures
        first_fragment_named(s, name) is None,
    decreases s.len(),
{
    if s.len() > 0 {
        assert forall|i: int|
            0 <= i < s.drop_first().len() implies !(#[trigger] s.drop_first()[i] matches ExecutableDefinition::FragmentDefinition(
            f,
        ) && f.name.name@ == name) by {
            assert(s.drop_first()[i] == s[i + 1]);
        }
        lemma_no_fragment_named(s.drop_first(), name);
        assert(!(s[0] matches ExecutableDefinition::FragmentDefinition(f) && f.name.name@ == name));
    }
}

proof fn lemma_same_operation(
    schema: Schema,
    f1: Seq<FragmentDefinition>,
    f2: Seq<FragmentDefinition>,
    name: Seq<char>,
    op: OperationDefinition,
)
    requires
        agree_except(map_of_fragments(f1), map_of_fragments(f2), name),
        fragments_avoid(f1, name),
        selections_avoid(name, op.selection_set.selections@),
    ensures
        operation_errors(schema, f1, op) == operation_errors(schema, f2, op),
{
    lemma_same_count(f1, f2, name, seq![], op.selection_set.selections@);
    let explicit = root_type_entry(schema.spec_root_types(), op.operation_type);
    let root_name = match explicit {
        Some(n) => n.name@,
        None => default_root_name(op.operation_type),
    };
    if let Some(root) = schema.spec_get_type(root_name) {
        lemma_same_selection_set(schema, f1, f2, name, seq![], root, op.selection_set);
    }
}

/// Every definition of the document leaves the fragment name `name` alone: no
/// fragment has it and no fragment spread (nested ones included) names it.
pub open spec fn document_avoids(defs: Seq<ExecutableDefinition>, name: Seq<char>) -> bool {
    forall|i: int|
        0 <= i < defs.len() ==> match #[trigger] defs[i] {
            ExecutableDefinition::FragmentDefinition(f) => f.name.name@ != name && selections_avoid(
                name,
                f.selection_set.selections@,
            ),
            ExecutableDefinition::OperationDefinition(op) => selections_avoid(name, op.selection_set.selections@),
        }
}

/// `defs` with the fragment `fd` inserted at position `j`.
pub open spec fn insert_fragment(defs: Seq<ExecutableDefinition>, j: int, fd: FragmentDefinition) -> Seq<
    ExecutableDefinition,
> {
    defs.take(j).push(ExecutableDefinition::FragmentDefinition(fd)) + defs.skip(j)
}

proof fn lemma_same_definition(
    schema: Schema,
    defs: Seq<ExecutableDefinition>,
    j: int,
    fd: FragmentDefinition,
    i: int,
    i2: int,
)
    requires
        0 <= j <= defs.len(),
        0 <= i < defs.len(),
        i2 == (if i < j { i } else { i + 1 }),
        document_avoids(defs, fd.name.name@),
    ensures
        definition_errors(schema, insert_fragment(defs, j, fd), i2) == definition_errors(schema, defs, i),
{
    let name = fd.name.name@;
    let x = ExecutableDefinition::FragmentDefinition(fd);
    let defs2 = insert_fragment(defs, j, fd);
    let a = defs.take(j);
    let b = defs.skip(j);
    assert(defs =~= a + b);
    assert(defs2[i2] == defs[i]);
    // the same operations, counted
    lemma_operation_count_append(a, b);
    lemma_operation_count_append(a.push(x), b);
    assert(a.push(x).drop_last() =~= a);
    // the same definitions before it, but for the inserted fragment
    if i < j {
        assert(defs2.take(i2) =~= defs.take(i));
    } else {
        let bb = defs.take(i).skip(j);
        assert(defs2.take(i2) =~= a.push(x) + bb);
        assert(defs.take(i) =~= a + bb);
        match defs[i] {
            ExecutableDefinition::OperationDefinition(op) => {
                if let Some(n) = op.name {
                    lemma_first_named_skip_fragment(a, fd, bb, n.name@);
                }
            },
            ExecutableDefinition::FragmentDefinition(f) => {
                assert(f.name.name@ != name);
                lemma_first_named_skip_fragment(a, fd, bb, f.name.name@);
            },
        }
    }
    // the same fragments, but for the inserted one, which nothing spreads
    let f1 = fragments_of(defs);
    let f2 = fragments_of(defs2);
    lemma_fragments_of_append(a, b);
    lemma_fragments_of_append(a.push(x), b);
    assert(fragments_of(a.push(x)) == fragments_of(a).push(fd));
    lemma_map_insert_agrees(fragments_of(a), fd, fragments_of(b));
    lemma_fragments_avoid_of_document(defs, name);
    if let ExecutableDefinition::OperationDefinition(op) = defs[i] {
        assert(selections_avoid(name, op.selection_set.selections@));
        lemma_same_operation(schema, f1, f2, name, op);
    }
}

proof fn lemma_fragments_avoid_of_document(defs: Seq<ExecutableDefinition>, name: Seq<char>)
    requires
        document_avoids(defs, name),
    ensures
        fragments_avoid(fragments_of(defs), name),
{
    assert forall|k: Seq<char>| #[trigger] map_of_fragments(fragments_of(defs)).dom().contains(k) implies selections_avoid(
        name,
        map_of_fragments(fragments_of(defs))[k].selection_set.selections@,
    ) by {
        lemma_fragment_map_of_document(defs, k);
        let i = choose|i: int|
            0 <= i < defs.len() && #[trigger] is_fragment_named(defs, i, k) && defs[i]
                == ExecutableDefinition::FragmentDefinition(fragment_map_of(defs)[k]) && forall|l: int|
                i < l < defs.len() ==> !#[trigger] is_fragment_named(defs, l, k);
        assert(match defs[i] {
            ExecutableDefinition::FragmentDefinition(f) => f.name.name@ != name && selections_avoid(
                name,
                f.selection_set.selections@,
            ),
            ExecutableDefinition::OperationDefinition(op) => selections_avoid(name, op.selection_set.selections@),
        });
    }
}

proof fn lemma_prefix_errors(
    schema: Schema,
    defs: Seq<ExecutableDefinition>,
    j: int,
    fd: FragmentDefinition,
    n: int,
)
    requires
        0 <= j <= defs.len(),
        0 <= n <= defs.len(),
        document_avoids(defs, fd.name.name@),
        schema.spec_get_type(fd.type_condition.name@) matches Some(t) && is_composite(t),
    ensures
        n <= j ==> definitions_errors(schema, insert_fragment(defs, j, fd), n as nat) == definitions_errors(
            schema,
            defs,
            n as nat,
        ),
        j <= n ==> definitions_errors(schema, insert_fragment(defs, j, fd), (n + 1) as nat)
            == definitions_errors(schema, defs, n as nat),
    decreases n,
{
    let defs2 = insert_fragment(defs, j, fd);
    let name = fd.name.name@;
    if j <= n {
        // the inserted fragment adds no error of its own
        assert(defs2[j] == ExecutableDefinition::FragmentDefinition(fd));
        assert(defs2.take(j) =~= defs.take(j));
        assert forall|i: int|
            0 <= i < defs.take(j).len() implies !(#[trigger] defs.take(j)[i] matches ExecutableDefinition::FragmentDefinition(
            f,
        ) && f.name.name@ == name) by {
            assert(defs.take(j)[i] == defs[i]);
        }
        lemma_no_fragment_named(defs.take(j), name);
        assert(definition_errors(schema, defs2, j) =~= Seq::<CheckErrorView>::empty());
    }
    if n > 0 {
        lemma_prefix_errors(schema, defs, j, fd, n - 1);
        if n <= j {
            lemma_same_definition(schema, defs, j, fd, n - 1, n - 1);
        }
        if j <= n - 1 {
            lemma_same_definition(schema, defs, j, fd, n - 1, n);
        }
    }
    if n == j {
        assert(definitions_errors(schema, defs2, (n + 1) as nat) =~= definitions_errors(schema, defs2, n as nat)
            + Seq::<CheckErrorView>::empty());
    }
}

/// Adding a fragment that nothing spreads, whose name no fragment has and
/// whose type condition is an object, interface or union type of the schema,
/// anywhere in a document changes none of its errors: a fragment's selection
/// set is checked only where it is spread.
pub proof fn lemma_unused_fragment_changes_nothing(
    schema: Schema,
    doc: OperationDocument,
    doc2: OperationDocument,
    j: int,
    fd: FragmentDefinition,
)
    requires
        0 <= j <= doc.definitions@.len(),
        doc2.definitions@ == insert_fragment(doc.definitions@, j, fd),
        document_avoids(doc.definitions@, fd.name.name@),
        schema.spec_get_type(fd.type_condition.name@) matches Some(t) && is_composite(t),
    ensures
        document_errors(schema, doc2) == document_errors(schema, doc),
{
    let defs = doc.definitions@;
    assert(insert_fragment(defs, j, fd).len() == defs.len() + 1);
    lemma_prefix_errors(schema, defs, j, fd, defs.len() as int);
}


// ---------------------------------------------------------------------------
// Laws on unions under interface conditions, root types, variables and the
// root field count of a subscription
// ---------------------------------------------------------------------------

/// The union member `m` names an object type of the schema.
pub open spec fn member_is_object(schema: Schema, m: Ident) -> bool {
    schema.spec_get_type(m.name@) matches Some(TypeDefinition::Object(_))
}

/// The union member `m` names an object type of the schema that implements
/// the interface named `interface`.
pub open spec fn member_implements(schema: Schema, m: Ident, interface: Seq<char>) -> bool {
    schema.spec_get_type(m.name@) matches Some(TypeDefinition::Object(o)) && idents_contain(o.implements@, interface)
}

proof fn lemma_scan_finds_implementing_member(schema: Schema, members: Seq<Ident>, interface: Seq<char>, k: int)
    requires
        0 <= k < members.len(),
        member_implements(schema, members[k], interface),
        forall|j: int| 0 <= j < k ==> member_is_object(schema, #[trigger] members[j]),
    ensures
        scan_union_members(schema, members, interface) == Some(Seq::<CheckErrorView>::empty()),
    decreases k,
{
    if k > 0 {
        assert(member_is_object(schema, members[0]));
        let rest = members.drop_first();
        assert forall|j: int| 0 <= j < k - 1 implies member_is_object(schema, #[trigger] rest[j]) by {
            assert(rest[j] == members[j + 1]);
        }
        assert(rest[k - 1] == members[k]);
        lemma_scan_finds_implementing_member(schema, rest, interface, k - 1);
    }
}

proof fn lemma_scan_finds_none(schema: Schema, members: Seq<Ident>, interface: Seq<char>)
    requires
        forall|j: int|
            0 <= j < members.len() ==> member_is_object(schema, #[trigger] members[j]) && !member_implements(
                schema,
                members[j],
                interface,
            ),
    ensures
        scan_union_members(schema, members, interface) is None,
    decreases members.len(),
{
    if members.len() > 0 {
        assert(member_is_object(schema, members[0]) && !member_implements(schema, members[0], interface));
        let rest = members.drop_first();
        assert forall|j: int| 0 <= j < rest.len() implies member_is_object(schema, #[trigger] rest[j])
            && !member_implements(schema, rest[j], interface) by {
            assert(rest[j] == members[j + 1]);
        }
        lemma_scan_finds_none(schema, rest, interface);
    }
}

proof fn lemma_scan_stops_at_non_object(schema: Schema, members: Seq<Ident>, interface: Seq<char>, k: int)
    requires
        0 <= k < members.len(),
        !member_is_object(schema, members[k]),
        forall|j: int|
            0 <= j < k ==> member_is_object(schema, #[trigger] members[j]) && !member_implements(
                schema,
                members[j],
                interface,
            ),
    ensures
        scan_union_members(schema, members, interface) == Some(
            seq![error_at(members[k].position, MessageView::TypeSystemError)],
        ),
    decreases k,
{
    if k > 0 {
        assert(member_is_object(schema, members[0]) && !member_implements(schema, members[0], interface));
        let rest = members.drop_first();
        assert forall|j: int| 0 <= j < k - 1 implies member_is_object(schema, #[trigger] rest[j])
            && !member_implements(schema, rest[j], interface) by {
            assert(rest[j] == members[j + 1]);
        }
        assert(rest[k - 1] == members[k]);
        lemma_scan_stops_at_non_object(schema, rest, interface, k - 1);
    }
}

/// A fragment whose condition is an interface, spread where a union is
/// selected (or a union condition where an interface is selected), can
/// match as soon as some member of the union is an object type that
/// implements the interface: where every member before that one is an object
/// type, nothing is reported, in either direction. Where every member is an
/// object type and none implements the interface, the condition is reported
/// as never matching, in either direction.
pub proof fn lemma_union_and_interface_conditions(
    schema: Schema,
    ud: UnionDefinition,
    id: InterfaceDefinition,
    spread_pos: Pos,
)
    ensures
        (exists|k: int|
            0 <= k < ud.members@.len() && #[trigger] member_implements(schema, ud.members@[k], id.name.name@)
                && forall|j: int| 0 <= j < k ==> member_is_object(schema, #[trigger] ud.members@[j]))
            ==> fragment_condition_errors(schema, TypeDefinition::Union(ud), spread_pos, TypeDefinition::Interface(id))
            == Some(Seq::<CheckErrorView>::empty()) && fragment_condition_errors(
            schema,
            TypeDefinition::Interface(id),
            spread_pos,
            TypeDefinition::Union(ud),
        ) == Some(Seq::<CheckErrorView>::empty()),
        (forall|j: int|
            0 <= j < ud.members@.len() ==> member_is_object(schema, #[trigger] ud.members@[j]) && !member_implements(
                schema,
                ud.members@[j],
                id.name.name@,
            )) ==> {
            let e = never_matches(
                spread_pos,
                ud.name.name@,
                id.name.name@,
                id.position,
                id.name.name@,
                ud.position,
                ud.name.name@,
            );
            &&& fragment_condition_errors(schema, TypeDefinition::Union(ud), spread_pos, TypeDefinition::Interface(id))
                == Some(seq![e])
            &&& fragment_condition_errors(schema, TypeDefinition::Interface(id), spread_pos, TypeDefinition::Union(ud))
                == Some(seq![e])
        },
        forall|k: int|
            0 <= k < ud.members@.len() && !member_is_object(schema, #[trigger] ud.members@[k]) && (forall|j: int|
                0 <= j < k ==> member_is_object(schema, #[trigger] ud.members@[j]) && !member_implements(
                    schema,
                    ud.members@[j],
                    id.name.name@,
                )) ==> {
                let e = error_at(ud.members@[k].position, MessageView::TypeSystemError);
                &&& fragment_condition_errors(
                    schema,
                    TypeDefinition::Union(ud),
                    spread_pos,
                    TypeDefinition::Interface(id),
                ) == Some(seq![e])
                &&& fragment_condition_errors(
                    schema,
                    TypeDefinition::Interface(id),
                    spread_pos,
                    TypeDefinition::Union(ud),
                ) == Some(seq![e])
            },
{
    let members = ud.members@;
    let iname = id.name.name@;
    if exists|k: int|
        0 <= k < members.len() && #[trigger] member_implements(schema, members[k], iname) && forall|j: int|
            0 <= j < k ==> member_is_object(schema, #[trigger] members[j]) {
        let k = choose|k: int|
            0 <= k < members.len() && #[trigger] member_implements(schema, members[k], iname) && forall|j: int|
                0 <= j < k ==> member_is_object(schema, #[trigger] members[j]);
        lemma_scan_finds_implementing_member(schema, members, iname, k);
    }
    if forall|j: int|
        0 <= j < members.len() ==> member_is_object(schema, #[trigger] members[j]) && !member_implements(
            schema,
            members[j],
            iname,
        ) {
        lemma_scan_finds_none(schema, members, iname);
    }
    assert forall|k: int|
        0 <= k < members.len() && !member_is_object(schema, #[trigger] members[k]) && (forall|j: int|
            0 <= j < k ==> member_is_object(schema, #[trigger] members[j]) && !member_implements(
                schema,
                members[j],
                iname,
            )) implies scan_union_members(schema, members, iname) == Some(
        seq![error_at(members[k].position, MessageView::TypeSystemError)],
    ) by {
        lemma_scan_stops_at_non_object(schema, members, iname, k);
    }
}

/// Where the schema names a root type for the operation's kind (its query
/// entry for a query, its mutation entry for a mutation, its subscription
/// entry for a subscription) and that type is defined, the operation's
/// selection set is checked on that type: the operation's errors end with
/// the errors of its selection set selected on it.
pub proof fn lemma_operation_checked_on_its_root_type(
    schema: Schema,
    frags: Seq<FragmentDefinition>,
    op: OperationDefinition,
    n: Ident,
    root: TypeDefinition,
)
    requires
        op.operation_type == OperationType::Query ==> schema.spec_root_types().query_type == Some(n),
        op.operation_type == OperationType::Mutation ==> schema.spec_root_types().mutation_type == Some(n),
        op.operation_type == OperationType::Subscription ==> schema.spec_root_types().subscription_type == Some(n),
        schema.spec_get_type(n.name@) == Some(root),
    ensures
        exists|pre: Seq<CheckErrorView>|
            operation_errors(schema, frags, op) == pre + selection_set_errors(
                schema,
                frags,
                seq![],
                root,
                op.selection_set,
            ),
{
    let pre = directives_errors(schema, op.directives@, operation_location(op.operation_type)) + match op.variables_definition {
        Some(v) => variables_errors(schema, v.definitions@),
        None => seq![],
    } + (if op.operation_type == OperationType::Subscription && count_fields(
        frags,
        seq![],
        op.selection_set.selections@,
    ) > 1 {
        seq![error_at(op.position, MessageView::SubscriptionMustHaveExactlyOneRootField)]
    } else {
        seq![]
    });
    assert(operation_errors(schema, frags, op) == pre + selection_set_errors(schema, frags, seq![], root, op.selection_set));
}

/// Where the schema has no `schema { ... }` definition of its own and names
/// no root type for the operation's kind, the conventional type is used: a
/// query is checked on `Query`, a mutation on `Mutation` and a subscription
/// on `Subscription`, where the schema defines that type.
pub proof fn lemma_operation_checked_on_conventional_root_type(
    schema: Schema,
    frags: Seq<FragmentDefinition>,
    op: OperationDefinition,
    root: TypeDefinition,
)
    requires
        schema.spec_root_types_position().builtin,
        op.operation_type == OperationType::Query ==> schema.spec_root_types().query_type is None
            && schema.spec_get_type("Query"@) == Some(root),
        op.operation_type == OperationType::Mutation ==> schema.spec_root_types().mutation_type is None
            && schema.spec_get_type("Mutation"@) == Some(root),
        op.operation_type == OperationType::Subscription ==> schema.spec_root_types().subscription_type is None
            && schema.spec_get_type("Subscription"@) == Some(root),
    ensures
        exists|pre: Seq<CheckErrorView>|
            operation_errors(schema, frags, op) == pre + selection_set_errors(
                schema,
                frags,
                seq![],
                root,
                op.selection_set,
            ),
{
    let pre = directives_errors(schema, op.directives@, operation_location(op.operation_type)) + match op.variables_definition {
        Some(v) => variables_errors(schema, v.definitions@),
        None => seq![],
    } + (if op.operation_type == OperationType::Subscription && count_fields(
        frags,
        seq![],
        op.selection_set.selections@,
    ) > 1 {
        seq![error_at(op.position, MessageView::SubscriptionMustHaveExactlyOneRootField)]
    } else {
        seq![]
    });
    assert(operation_errors(schema, frags, op) == pre + selection_set_errors(schema, frags, seq![], root, op.selection_set));
}

/// The type named by a variable definition, if the schema defines it.
pub open spec fn variable_type(schema: Schema, v: VariableDefinition) -> Option<TypeDefinition> {
    schema.spec_get_type(v.ty.spec_unwrapped().name@)
}

/// The type of the variable `v` is an object, interface or union type of the
/// schema: one that may not be the type of a variable.
pub open spec fn has_output_only_type(schema: Schema, v: VariableDefinition) -> bool {
    match variable_type(schema, v) {
        Some(t) => t is Object || t is Interface || t is Union,
        None => false,
    }
}

/// A variable is reported as not having an input type exactly where its type
/// names an object, interface or union type of the schema: each error that
/// says so stands at the type of such a variable and names that type, and
/// each such variable gets that error. Scalar, enum and input object types
/// are never reported so.
pub proof fn lemma_no_output_type_exactly_for_output_types(schema: Schema, defs: Seq<VariableDefinition>)
    ensures
        forall|e: int|
            0 <= e < variables_errors(schema, defs).len() && (#[trigger] variables_errors(schema, defs)[e]).message
                is NoOutputType ==> exists|k: int|
                0 <= k < defs.len() && #[trigger] has_output_only_type(schema, defs[k])
                    && variables_errors(schema, defs)[e] == error_at(
                    defs[k].ty.spec_position(),
                    MessageView::NoOutputType { name: defs[k].ty.spec_unwrapped().name@ },
                ),
        forall|k: int|
            0 <= k < defs.len() && #[trigger] has_output_only_type(schema, defs[k])
                ==> variables_errors(schema, defs).contains(
                error_at(
                    defs[k].ty.spec_position(),
                    MessageView::NoOutputType { name: defs[k].ty.spec_unwrapped().name@ },
                ),
            ),
    decreases defs.len(),
{
    if defs.len() > 0 {
        let init = defs.drop_last();
        let v = defs.last();
        lemma_no_output_type_exactly_for_output_types(schema, init);
        let a = variables_errors(schema, init);
        let b = variable_errors(schema, init, v);
        let all = variables_errors(schema, defs);
        assert(all == a + b);
        let ve = error_at(v.ty.spec_position(), MessageView::NoOutputType { name: v.ty.spec_unwrapped().name@ });
        assert forall|e: int| 0 <= e < all.len() && (#[trigger] all[e]).message is NoOutputType implies exists|k: int|
            0 <= k < defs.len() && #[trigger] has_output_only_type(schema, defs[k])
                && all[e] == error_at(
                defs[k].ty.spec_position(),
                MessageView::NoOutputType { name: defs[k].ty.spec_unwrapped().name@ },
            ) by {
            if e < a.len() {
                assert(all[e] == a[e]);
                let k = choose|k: int|
                    0 <= k < init.len() && #[trigger] has_output_only_type(schema, init[k])
                        && a[e] == error_at(
                        init[k].ty.spec_position(),
                        MessageView::NoOutputType { name: init[k].ty.spec_unwrapped().name@ },
                    );
                assert(defs[k] == init[k]);
            } else {
                let name = v.name.name@;
                let tname = v.ty.spec_unwrapped().name@;
                let d: Seq<CheckErrorView> = if exists|j: int| 0 <= j < init.len() && #[trigger] init[j].name.name@ == name {
                    seq![error_at(v.pos, MessageView::DuplicatedVariableName { name })]
                } else {
                    seq![]
                };
                let tpart: Seq<CheckErrorView> = match schema.spec_get_type(tname) {
                    None => seq![error_at(v.ty.spec_position(), MessageView::UnknownType { name: tname })],
                    Some(t) => if is_input_kind(spec_kind_of(t)) {
                        seq![]
                    } else {
                        seq![ve]
                    },
                };
                assert(b == d + tpart);
                assert(all[e] == b[e - a.len()]);
                assert(e - a.len() >= d.len());
                assert(all[e] == tpart[e - a.len() - d.len()]);
                assert(has_output_only_type(schema, v));
                assert(defs[defs.len() - 1] == v);
                assert(has_output_only_type(schema, defs[defs.len() - 1]));
                assert(all[e] == ve);
            }
        }
        assert forall|k: int|
            0 <= k < defs.len() && #[trigger] has_output_only_type(schema, defs[k])
                implies all.contains(
                error_at(
                    defs[k].ty.spec_position(),
                    MessageView::NoOutputType { name: defs[k].ty.spec_unwrapped().name@ },
                ),
            ) by {
            let want = error_at(
                defs[k].ty.spec_position(),
                MessageView::NoOutputType { name: defs[k].ty.spec_unwrapped().name@ },
            );
            if k < init.len() {
                assert(defs[k] == init[k]);
                
                let i = choose|i: int| 0 <= i < a.len() && a[i] == want;
                assert(all[i] == want);
            } else {
                assert(defs[k] == v);
                assert(b[b.len() - 1] == want);
                assert(all[all.len() - 1] == want);
            }
        }
    }
}

/// Some variable before the one at `k` has its name.
pub open spec fn declared_before(defs: Seq<VariableDefinition>, k: int) -> bool {
    exists|j: int| 0 <= j < k && #[trigger] defs[j].name.name@ == defs[k].name.name@
}

/// A variable is reported as a repeated name exactly where an earlier
/// variable of the operation has its name: each such error stands at such a
/// variable and names it, and each such variable gets that error.
pub proof fn lemma_duplicated_variable_exactly_for_repeats(schema: Schema, defs: Seq<VariableDefinition>)
    ensures
        forall|e: int|
            0 <= e < variables_errors(schema, defs).len() && (#[trigger] variables_errors(schema, defs)[e]).message
                is DuplicatedVariableName ==> exists|k: int|
                0 <= k < defs.len() && #[trigger] declared_before(defs, k) && variables_errors(schema, defs)[e]
                    == error_at(defs[k].pos, MessageView::DuplicatedVariableName { name: defs[k].name.name@ }),
        forall|k: int|
            0 <= k < defs.len() && #[trigger] declared_before(defs, k) ==> variables_errors(schema, defs).contains(
                error_at(defs[k].pos, MessageView::DuplicatedVariableName { name: defs[k].name.name@ }),
            ),
    decreases defs.len(),
{
    if defs.len() > 0 {
        let init = defs.drop_last();
        let v = defs.last();
        let last = defs.len() - 1;
        lemma_duplicated_variable_exactly_for_repeats(schema, init);
        let a = variables_errors(schema, init);
        let b = variable_errors(schema, init, v);
        let all = variables_errors(schema, defs);
        assert(all == a + b);
        assert(defs[last] == v);
        let name = v.name.name@;
        let tname = v.ty.spec_unwrapped().name@;
        let ve = error_at(v.pos, MessageView::DuplicatedVariableName { name });
        let d: Seq<CheckErrorView> = if exists|j: int| 0 <= j < init.len() && #[trigger] init[j].name.name@ == name {
            seq![ve]
        } else {
            seq![]
        };
        let tpart: Seq<CheckErrorView> = match schema.spec_get_type(tname) {
            None => seq![error_at(v.ty.spec_position(), MessageView::UnknownType { name: tname })],
            Some(t) => if is_input_kind(spec_kind_of(t)) {
                seq![]
            } else {
                seq![error_at(v.ty.spec_position(), MessageView::NoOutputType { name: tname })]
            },
        };
        assert(b == d + tpart);
        assert((exists|j: int| 0 <= j < init.len() && #[trigger] init[j].name.name@ == name) == declared_before(
            defs,
            last,
        )) by {
            if exists|j: int| 0 <= j < init.len() && #[trigger] init[j].name.name@ == name {
                let j = choose|j: int| 0 <= j < init.len() && #[trigger] init[j].name.name@ == name;
                assert(defs[j] == init[j]);
            }
            if declared_before(defs, last) {
                let j = choose|j: int| 0 <= j < last && #[trigger] defs[j].name.name@ == defs[last].name.name@;
                assert(init[j] == defs[j]);
            }
        }
        assert forall|k: int| 0 <= k < init.len() implies declared_before(init, k) == declared_before(defs, k) by {
            if declared_before(init, k) {
                let j = choose|j: int| 0 <= j < k && #[trigger] init[j].name.name@ == init[k].name.name@;
                assert(defs[j] == init[j] && defs[k] == init[k]);
            }
            if declared_before(defs, k) {
                let j = choose|j: int| 0 <= j < k && #[trigger] defs[j].name.name@ == defs[k].name.name@;
                assert(defs[j] == init[j] && defs[k] == init[k]);
            }
        }
        assert forall|e: int|
            0 <= e < all.len() && (#[trigger] all[e]).message is DuplicatedVariableName implies exists|k: int|
            0 <= k < defs.len() && #[trigger] declared_before(defs, k) && all[e] == error_at(
                defs[k].pos,
                MessageView::DuplicatedVariableName { name: defs[k].name.name@ },
            ) by {
            if e < a.len() {
                assert(all[e] == a[e]);
                let k = choose|k: int|
                    0 <= k < init.len() && #[trigger] declared_before(init, k) && a[e] == error_at(
                        init[k].pos,
                        MessageView::DuplicatedVariableName { name: init[k].name.name@ },
                    );
                assert(defs[k] == init[k]);
                assert(declared_before(defs, k));
            } else {
                assert(all[e] == b[e - a.len()]);
                assert(e - a.len() < d.len());
                assert(all[e] == ve);
                assert(declared_before(defs, last));
            }
        }
        assert forall|k: int| 0 <= k < defs.len() && #[trigger] declared_before(defs, k) implies all.contains(
            error_at(defs[k].pos, MessageView::DuplicatedVariableName { name: defs[k].name.name@ }),
        ) by {
            let want = error_at(defs[k].pos, MessageView::DuplicatedVariableName { name: defs[k].name.name@ });
            if k < init.len() {
                assert(defs[k] == init[k]);
                assert(declared_before(init, k));
                let i = choose|i: int| 0 <= i < a.len() && a[i] == want;
                assert(all[i] == want);
            } else {
                assert(d == seq![ve]);
                assert(b[0] == want);
                assert(all[a.len() as int] == want);
            }
        }
    }
}

/// The number of fields in a list of selections, counted up to 2, is that of
/// its first part and its second part together.
pub proof fn lemma_count_fields_concat(
    frags: Seq<FragmentDefinition>,
    seen: Seq<Seq<char>>,
    a: Seq<Selection>,
    b: Seq<Selection>,
)
    ensures
        count_fields(frags, seen, a + b) == if count_fields(frags, seen, a) + count_fields(frags, seen, b) > 2 {
            2
        } else {
            count_fields(frags, seen, a) + count_fields(frags, seen, b)
        },
    decreases b.len(),
{
    if b.len() == 0 {
        assert(a + b =~= a);
    } else {
        assert((a + b).drop_last() =~= a + b.drop_last());
        assert((a + b).last() == b.last());
        lemma_count_fields_concat(frags, seen, a, b.drop_last());
    }
}

/// A list of fields alone counts as its length, up to 2.
pub proof fn lemma_count_plain_fields(frags: Seq<FragmentDefinition>, seen: Seq<Seq<char>>, sels: Seq<Selection>)
    requires
        forall|k: int| 0 <= k < sels.len() ==> #[trigger] sels[k] is Field,
    ensures
        count_fields(frags, seen, sels) == if sels.len() > 2 {
            2
        } else {
            sels.len()
        },
    decreases sels.len(),
{
    if sels.len() > 0 {
        let init = sels.drop_last();
        assert forall|k: int| 0 <= k < init.len() implies #[trigger] init[k] is Field by {
            assert(init[k] == sels[k]);
        }
        assert(sels.last() is Field);
        assert(count_selection(frags, seen, sels.last()) == 1);
        lemma_count_plain_fields(frags, seen, init);
    }
}

proof fn lemma_count_at_most_two(frags: Seq<FragmentDefinition>, seen: Seq<Seq<char>>, sels: Seq<Selection>)
    ensures
        count_fields(frags, seen, sels) <= 2,
{
}

/// An inline fragment adds its own selections to the count of fields: the
/// count is the same with the inline fragment replaced by its selections.
pub proof fn lemma_count_fields_flattens_inline_fragment(
    frags: Seq<FragmentDefinition>,
    seen: Seq<Seq<char>>,
    pre: Seq<Selection>,
    i: InlineFragment,
    post: Seq<Selection>,
)
    ensures
        count_fields(frags, seen, pre + seq![Selection::InlineFragment(i)] + post) == count_fields(
            frags,
            seen,
            pre + i.selection_set.selections@ + post,
        ),
{
    let one = seq![Selection::InlineFragment(i)];
    let inner = i.selection_set.selections@;
    assert(one.drop_last() =~= Seq::<Selection>::empty());
    assert(one.last() == Selection::InlineFragment(i));
    assert(count_fields(frags, seen, one.drop_last()) == 0);
    assert(count_selection(frags, seen, Selection::InlineFragment(i)) == count_fields(frags, seen, inner));
    lemma_count_at_most_two(frags, seen, inner);
    assert(count_fields(frags, seen, one) == count_fields(frags, seen, inner));
    lemma_count_fields_concat(frags, seen, pre, one);
    lemma_count_fields_concat(frags, seen, pre + one, post);
    lemma_count_fields_concat(frags, seen, pre, inner);
    lemma_count_fields_concat(frags, seen, pre + inner, post);
}

} // verus!
