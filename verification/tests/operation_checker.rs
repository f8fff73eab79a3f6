use nitrogql::ast::{
    Arguments, Directive, ExecutableDefinition, Field, FragmentDefinition, FragmentSpread, Ident,
    InlineFragment, OperationDefinition, OperationDocument, OperationType, Pos, Selection, SelectionSet,
    Type, Value, Variable, VariableDefinition, VariablesDefinition,
};
use nitrogql::error::{CheckError, CheckErrorMessage, TypeKind};
use nitrogql::fragment_map::generate_fragment_map;
use nitrogql::operation_checker::{check_operation_document, kind_of_type_definition, selection_set_has_more_than_one_fields};
use nitrogql::schema::{
    DirectiveDefinition, FieldDefinition, InputObjectDefinition, InputValueDefinition, InterfaceDefinition,
    ObjectDefinition, RootTypes, ScalarDefinition, Schema, TypeDefinition, UnionDefinition,
};

fn p(line: usize) -> Pos {
    Pos { line, column: 0, file: 0, builtin: false }
}

fn id(name: &str, line: usize) -> Ident {
    Ident { name: name.to_string(), position: p(line) }
}

fn named(name: &str) -> Type {
    Type::Named(id(name, 900))
}

fn field_def(name: &str, ty: Type) -> FieldDefinition {
    FieldDefinition { name: id(name, 800), arguments: vec![], ty }
}

fn object(name: &str, line: usize, implements: &[&str], fields: Vec<FieldDefinition>) -> TypeDefinition {
    TypeDefinition::Object(ObjectDefinition {
        position: p(line),
        name: id(name, line),
        implements: implements.iter().map(|n| id(n, line)).collect(),
        fields,
    })
}

/// type Query { user: User, version: String, search: SearchResult, node: Node, post(id: ID!): Post }
/// type Subscription { a: String, b: String }
/// type User implements Node { id: ID!, name: String, friends: [User] }
/// type Post implements Node { id: ID!, title: String }
/// interface Node { id: ID! }
/// interface Named { name: String }
/// union SearchResult = User | Post
/// scalar String, scalar ID, input UserInput { name: String }
/// directive @include(if: Boolean!) on FIELD
fn schema_with_roots(root_types: RootTypes, root_pos: Pos) -> Schema {
    let mut post_field = field_def("post", named("Post"));
    post_field.arguments = vec![InputValueDefinition {
        name: id("id", 801),
        ty: Type::NonNull(Box::new(named("ID")), p(801)),
        default_value: None,
    }];
    let types = vec![
        object(
            "Query",
            100,
            &[],
            vec![
                field_def("user", named("User")),
                field_def("version", named("String")),
                field_def("search", named("SearchResult")),
                field_def("node", named("Node")),
                post_field,
            ],
        ),
        object("Subscription", 110, &[], vec![field_def("a", named("String")), field_def("b", named("String"))]),
        object(
            "User",
            120,
            &["Node"],
            vec![
                field_def("id", named("ID")),
                field_def("name", named("String")),
                field_def("friends", Type::List(Box::new(named("User")), p(121))),
            ],
        ),
        object("Post", 130, &["Node"], vec![field_def("id", named("ID")), field_def("title", named("String"))]),
        TypeDefinition::Interface(InterfaceDefinition {
            position: p(140),
            name: id("Node", 140),
            implements: vec![],
            fields: vec![field_def("id", named("ID"))],
        }),
        TypeDefinition::Interface(InterfaceDefinition {
            position: p(145),
            name: id("Named", 145),
            implements: vec![],
            fields: vec![field_def("name", named("String"))],
        }),
        TypeDefinition::Union(UnionDefinition {
            position: p(150),
            name: id("SearchResult", 150),
            members: vec![id("User", 151), id("Post", 152)],
        }),
        TypeDefinition::Scalar(ScalarDefinition { position: p(160), name: id("String", 160) }),
        TypeDefinition::Scalar(ScalarDefinition { position: p(161), name: id("ID", 161) }),
        TypeDefinition::Scalar(ScalarDefinition { position: p(162), name: id("Boolean", 162) }),
        TypeDefinition::InputObject(InputObjectDefinition { position: p(170), name: id("UserInput", 170), fields: vec![] }),
    ];
    let directives = vec![DirectiveDefinition {
        position: p(180),
        name: id("include", 180),
        arguments: vec![InputValueDefinition {
            name: id("if", 181),
            ty: Type::NonNull(Box::new(named("Boolean")), p(181)),
            default_value: None,
        }],
        repeatable: false,
        locations: vec![id("FIELD", 182)],
    }];
    Schema::new(types, directives, root_types, root_pos).unwrap()
}

fn schema() -> Schema {
    schema_with_roots(
        RootTypes { query_type: None, mutation_type: None, subscription_type: None },
        Pos { line: 0, column: 0, file: 0, builtin: true },
    )
}

fn fld(name: &str, line: usize, sub: Option<Vec<Selection>>) -> Selection {
    Selection::Field(Field {
        alias: None,
        name: id(name, line),
        arguments: None,
        directives: vec![],
        selection_set: sub.map(|s| SelectionSet { position: p(line), selections: s }),
    })
}

fn spread(name: &str, line: usize) -> Selection {
    Selection::FragmentSpread(FragmentSpread { position: p(line), fragment_name: id(name, line), directives: vec![] })
}

fn inline(cond: Option<&str>, line: usize, sels: Vec<Selection>) -> Selection {
    Selection::InlineFragment(InlineFragment {
        position: p(line),
        type_condition: cond.map(|c| id(c, line)),
        directives: vec![],
        selection_set: SelectionSet { position: p(line), selections: sels },
    })
}

fn op(ty: OperationType, name: Option<&str>, line: usize, sels: Vec<Selection>) -> ExecutableDefinition {
    ExecutableDefinition::OperationDefinition(OperationDefinition {
        position: p(line),
        operation_type: ty,
        name: name.map(|n| id(n, line)),
        variables_definition: None,
        directives: vec![],
        selection_set: SelectionSet { position: p(line), selections: sels },
    })
}

fn fragment(name: &str, cond: &str, line: usize, sels: Vec<Selection>) -> ExecutableDefinition {
    ExecutableDefinition::FragmentDefinition(FragmentDefinition {
        position: p(line),
        name: id(name, line),
        type_condition: id(cond, line),
        directives: vec![],
        selection_set: SelectionSet { position: p(line), selections: sels },
    })
}

fn doc(definitions: Vec<ExecutableDefinition>) -> OperationDocument {
    OperationDocument { definitions }
}

fn messages(errors: &[CheckError]) -> Vec<&CheckErrorMessage> {
    errors.iter().map(|e| &e.message).collect()
}

#[test]
fn valid_document_has_no_errors() {
    let d = doc(vec![
        op(
            OperationType::Query,
            Some("Q"),
            1,
            vec![
                fld("user", 2, Some(vec![fld("id", 3, None), spread("UserFields", 4)])),
                fld("search", 5, Some(vec![inline(Some("User"), 6, vec![fld("name", 7, None)])])),
            ],
        ),
        fragment("UserFields", "User", 10, vec![fld("name", 11, None), fld("friends", 12, Some(vec![fld("id", 13, None)]))]),
    ]);
    assert!(check_operation_document(&schema(), &d).is_empty());
}

#[test]
fn empty_document_has_no_errors() {
    assert!(check_operation_document(&schema(), &doc(vec![])).is_empty());
}

#[test]
fn unknown_field_is_reported_with_type_definition() {
    let d = doc(vec![op(OperationType::Query, None, 1, vec![fld("nope", 2, None)])]);
    let errors = check_operation_document(&schema(), &d);
    assert_eq!(errors.len(), 1);
    assert_eq!(
        errors[0].message,
        CheckErrorMessage::FieldNotFound { field_name: "nope".to_string(), scope_name: "Query".to_string() }
    );
    assert_eq!(errors[0].position, p(2));
    assert_eq!(errors[0].additional_info, vec![(p(100), CheckErrorMessage::DefinitionPos { name: "Query".to_string() })]);
}

#[test]
fn object_field_without_selection_set() {
    let d = doc(vec![op(OperationType::Query, None, 1, vec![fld("user", 2, None)])]);
    let errors = check_operation_document(&schema(), &d);
    assert_eq!(messages(&errors), vec![&CheckErrorMessage::MustSpecifySelectionSet { name: "user".to_string() }]);
}

#[test]
fn selection_set_on_scalar() {
    let d = doc(vec![op(OperationType::Query, None, 1, vec![fld("version", 2, Some(vec![fld("x", 3, None)]))])]);
    let errors = check_operation_document(&schema(), &d);
    assert_eq!(
        messages(&errors),
        vec![&CheckErrorMessage::SelectionOnInvalidType { kind: TypeKind::Scalar, name: "String".to_string() }]
    );
    assert_eq!(errors[0].additional_info, vec![(p(160), CheckErrorMessage::DefinitionPos { name: "String".to_string() })]);
}

#[test]
fn unknown_fragment() {
    let d = doc(vec![op(OperationType::Query, None, 1, vec![fld("user", 2, Some(vec![spread("Missing", 3)]))])]);
    let errors = check_operation_document(&schema(), &d);
    assert_eq!(messages(&errors), vec![&CheckErrorMessage::UnknownFragment { name: "Missing".to_string() }]);
}

#[test]
fn recursive_fragment_is_reported_once_per_cycle() {
    let d = doc(vec![
        op(OperationType::Query, None, 1, vec![fld("user", 2, Some(vec![spread("A", 3)]))]),
        fragment("A", "User", 10, vec![fld("id", 11, None), spread("B", 12)]),
        fragment("B", "User", 20, vec![spread("A", 21)]),
    ]);
    let errors = check_operation_document(&schema(), &d);
    assert_eq!(messages(&errors), vec![&CheckErrorMessage::RecursingFragmentSpread { name: "A".to_string() }]);
    assert_eq!(errors[0].position, p(21));
}

#[test]
fn duplicate_operation_names() {
    let d = doc(vec![
        op(OperationType::Query, Some("Q"), 1, vec![fld("version", 2, None)]),
        op(OperationType::Query, Some("Q"), 5, vec![fld("version", 6, None)]),
    ]);
    let errors = check_operation_document(&schema(), &d);
    assert_eq!(
        messages(&errors),
        vec![&CheckErrorMessage::DuplicateOperationName { operation_type: OperationType::Query }]
    );
    assert_eq!(errors[0].position, p(5));
    assert_eq!(errors[0].additional_info, vec![(p(1), CheckErrorMessage::AnotherDefinitionPos { name: "Q".to_string() })]);
}

#[test]
fn duplicate_fragment_names_point_at_the_first() {
    let d = doc(vec![
        fragment("F", "User", 1, vec![fld("id", 2, None)]),
        fragment("F", "User", 5, vec![fld("id", 6, None)]),
        fragment("F", "User", 9, vec![fld("id", 10, None)]),
    ]);
    let errors = check_operation_document(&schema(), &d);
    assert_eq!(
        messages(&errors),
        vec![
            &CheckErrorMessage::DuplicateFragmentName { other_position: p(1) },
            &CheckErrorMessage::DuplicateFragmentName { other_position: p(1) },
        ]
    );
}

#[test]
fn anonymous_operation_must_be_single() {
    let d = doc(vec![
        op(OperationType::Query, None, 1, vec![fld("version", 2, None)]),
        op(OperationType::Query, Some("Other"), 5, vec![fld("version", 6, None)]),
    ]);
    let errors = check_operation_document(&schema(), &d);
    assert_eq!(messages(&errors), vec![&CheckErrorMessage::UnNamedOperationMustBeSingle]);
    assert_eq!(errors[0].position, p(1));
}

#[test]
fn single_anonymous_operation_is_accepted() {
    let d = doc(vec![
        op(OperationType::Query, None, 1, vec![fld("version", 2, None)]),
        fragment("F", "User", 5, vec![fld("id", 6, None)]),
    ]);
    assert!(check_operation_document(&schema(), &d).is_empty());
}

#[test]
fn fragment_on_scalar_is_invalid_target() {
    let d = doc(vec![fragment("F", "String", 1, vec![])]);
    let errors = check_operation_document(&schema(), &d);
    assert_eq!(messages(&errors), vec![&CheckErrorMessage::InvalidFragmentTarget { name: "String".to_string() }]);
    assert_eq!(errors[0].additional_info, vec![(p(160), CheckErrorMessage::DefinitionPos { name: "String".to_string() })]);
}

#[test]
fn fragment_on_unknown_type() {
    let d = doc(vec![fragment("F", "Nothing", 1, vec![])]);
    let errors = check_operation_document(&schema(), &d);
    assert_eq!(messages(&errors), vec![&CheckErrorMessage::UnknownType { name: "Nothing".to_string() }]);
}

#[test]
fn object_condition_never_matches_other_object() {
    let d = doc(vec![op(
        OperationType::Query,
        None,
        1,
        vec![fld("user", 2, Some(vec![inline(Some("Post"), 3, vec![fld("title", 4, None)])]))],
    )]);
    let errors = check_operation_document(&schema(), &d);
    assert_eq!(
        messages(&errors),
        vec![&CheckErrorMessage::FragmentConditionNeverMatches {
            condition: "Post".to_string(),
            scope: "User".to_string()
        }]
    );
    assert_eq!(errors[0].position, p(3));
    assert_eq!(
        errors[0].additional_info,
        vec![
            (p(130), CheckErrorMessage::DefinitionPos { name: "Post".to_string() }),
            (p(120), CheckErrorMessage::DefinitionPos { name: "User".to_string() }),
        ]
    );
}

#[test]
fn object_and_interface_conditions() {
    // User implements Node: fine; User does not implement Named: never matches
    let d = doc(vec![op(
        OperationType::Query,
        None,
        1,
        vec![fld(
            "user",
            2,
            Some(vec![inline(Some("Node"), 3, vec![fld("id", 4, None)]), inline(Some("Named"), 5, vec![])]),
        )],
    )]);
    let errors = check_operation_document(&schema(), &d);
    assert_eq!(
        messages(&errors),
        vec![&CheckErrorMessage::FragmentConditionNeverMatches {
            condition: "Named".to_string(),
            scope: "User".to_string()
        }]
    );
}

#[test]
fn interface_scope_with_interface_condition() {
    // no object implements both Node and Named
    let d = doc(vec![op(
        OperationType::Query,
        None,
        1,
        vec![fld("node", 2, Some(vec![inline(Some("Named"), 3, vec![fld("name", 4, None)])]))],
    )]);
    let errors = check_operation_document(&schema(), &d);
    assert_eq!(
        messages(&errors),
        vec![&CheckErrorMessage::FragmentConditionNeverMatches {
            condition: "Named".to_string(),
            scope: "Named".to_string()
        }]
    );
}

#[test]
fn same_interface_condition_stops_checking() {
    // the fragment's selection set is not checked when the condition is the scope's own interface
    let d = doc(vec![op(
        OperationType::Query,
        None,
        1,
        vec![fld("node", 2, Some(vec![inline(Some("Node"), 3, vec![fld("nope", 4, None)])]))],
    )]);
    assert!(check_operation_document(&schema(), &d).is_empty());
}

#[test]
fn union_scope_with_member_and_non_member() {
    let d = doc(vec![op(
        OperationType::Query,
        None,
        1,
        vec![fld(
            "search",
            2,
            Some(vec![inline(Some("Post"), 3, vec![fld("title", 4, None)]), inline(Some("Query"), 5, vec![])]),
        )],
    )]);
    let errors = check_operation_document(&schema(), &d);
    assert_eq!(
        messages(&errors),
        vec![&CheckErrorMessage::FragmentConditionNeverMatches {
            condition: "SearchResult".to_string(),
            scope: "Query".to_string()
        }]
    );
}

#[test]
fn union_scope_with_interface_condition() {
    // User and Post implement Node: matches; nothing implements Named
    let d = doc(vec![op(
        OperationType::Query,
        None,
        1,
        vec![fld(
            "search",
            2,
            Some(vec![inline(Some("Node"), 3, vec![fld("id", 4, None)]), inline(Some("Named"), 5, vec![])]),
        )],
    )]);
    let errors = check_operation_document(&schema(), &d);
    assert_eq!(
        messages(&errors),
        vec![&CheckErrorMessage::FragmentConditionNeverMatches {
            condition: "SearchResult".to_string(),
            scope: "Named".to_string()
        }]
    );
}

#[test]
fn variables_are_checked() {
    let var = |name: &str, ty: &str, line: usize| VariableDefinition {
        pos: p(line),
        name: Variable { name: name.to_string(), position: p(line) },
        ty: Type::Named(id(ty, line)),
        default_value: None,
        directives: vec![],
    };
    let d = doc(vec![ExecutableDefinition::OperationDefinition(OperationDefinition {
        position: p(1),
        operation_type: OperationType::Query,
        name: Some(id("Q", 1)),
        variables_definition: Some(VariablesDefinition {
            position: p(1),
            definitions: vec![var("a", "ID", 2), var("a", "ID", 3), var("b", "Nope", 4), var("c", "User", 5), var("d", "UserInput", 6)],
        }),
        directives: vec![],
        selection_set: SelectionSet { position: p(7), selections: vec![fld("version", 8, None)] },
    })]);
    let errors = check_operation_document(&schema(), &d);
    assert_eq!(
        messages(&errors),
        vec![
            &CheckErrorMessage::DuplicatedVariableName { name: "a".to_string() },
            &CheckErrorMessage::UnknownType { name: "Nope".to_string() },
            &CheckErrorMessage::NoOutputType { name: "User".to_string() },
        ]
    );
    assert_eq!(errors[0].position, p(3));
}

#[test]
fn subscription_must_have_one_root_field() {
    let d = doc(vec![
        op(OperationType::Subscription, Some("S"), 1, vec![fld("a", 2, None), spread("F", 3)]),
        fragment("F", "Subscription", 10, vec![fld("b", 11, None)]),
    ]);
    let errors = check_operation_document(&schema(), &d);
    assert_eq!(messages(&errors), vec![&CheckErrorMessage::SubscriptionMustHaveExactlyOneRootField]);
    let single = doc(vec![op(OperationType::Subscription, Some("S"), 1, vec![fld("a", 2, None)])]);
    assert!(check_operation_document(&schema(), &single).is_empty());
}

#[test]
fn missing_root_type_in_explicit_schema() {
    let s = schema_with_roots(
        RootTypes { query_type: Some(id("Query", 190)), mutation_type: None, subscription_type: None },
        p(190),
    );
    let d = doc(vec![op(OperationType::Mutation, None, 1, vec![fld("x", 2, None)])]);
    let errors = check_operation_document(&s, &d);
    assert_eq!(
        messages(&errors),
        vec![&CheckErrorMessage::NoRootType { operation_type: OperationType::Mutation }]
    );
    assert_eq!(errors[0].additional_info, vec![(p(190), CheckErrorMessage::RootTypesAreDefinedHere)]);
}

#[test]
fn default_root_type_missing_from_schema() {
    let d = doc(vec![op(OperationType::Mutation, None, 1, vec![fld("x", 2, None)])]);
    let errors = check_operation_document(&schema(), &d);
    assert_eq!(messages(&errors), vec![&CheckErrorMessage::UnknownType { name: "Mutation".to_string() }]);
}

#[test]
fn directives_and_arguments_are_checked() {
    let with_directive = |dname: &str, args: Option<Vec<(&str, usize)>>| {
        Selection::Field(Field {
            alias: None,
            name: id("version", 2),
            arguments: None,
            directives: vec![Directive {
                position: p(3),
                name: id(dname, 3),
                arguments: args.map(|a| Arguments {
                    position: p(3),
                    arguments: a.into_iter().map(|(n, l)| (id(n, l), Value::Boolean(true, p(l)))).collect(),
                }),
            }],
            selection_set: None,
        })
    };
    let d = doc(vec![op(
        OperationType::Query,
        None,
        1,
        vec![
            with_directive("include", Some(vec![("if", 4)])),
            with_directive("skip", None),
            with_directive("include", Some(vec![("when", 5)])),
        ],
    )]);
    let errors = check_operation_document(&schema(), &d);
    assert_eq!(
        messages(&errors),
        vec![
            &CheckErrorMessage::UnknownDirective { name: "skip".to_string() },
            &CheckErrorMessage::UnknownArgument { name: "when".to_string() },
            &CheckErrorMessage::RequiredArgumentNotSpecified { name: "if".to_string() },
        ]
    );
}

#[test]
fn directive_in_wrong_location() {
    let d = doc(vec![ExecutableDefinition::OperationDefinition(OperationDefinition {
        position: p(1),
        operation_type: OperationType::Query,
        name: None,
        variables_definition: None,
        directives: vec![Directive { position: p(1), name: id("include", 1), arguments: None }],
        selection_set: SelectionSet { position: p(2), selections: vec![fld("version", 3, None)] },
    })]);
    let errors = check_operation_document(&schema(), &d);
    assert_eq!(
        messages(&errors),
        vec![
            &CheckErrorMessage::DirectiveLocationNotAllowed { name: "include".to_string() },
            &CheckErrorMessage::RequiredArgumentNotSpecified { name: "if".to_string() },
        ]
    );
}

#[test]
fn field_arguments_are_checked() {
    let d = doc(vec![op(OperationType::Query, None, 1, vec![fld("post", 2, Some(vec![fld("id", 3, None)]))])]);
    let errors = check_operation_document(&schema(), &d);
    assert_eq!(messages(&errors), vec![&CheckErrorMessage::RequiredArgumentNotSpecified { name: "id".to_string() }]);
    assert_eq!(errors[0].position, p(2));
}

#[test]
fn fragment_map_keeps_last_definition() {
    let d = doc(vec![
        fragment("F", "User", 1, vec![]),
        op(OperationType::Query, None, 3, vec![]),
        fragment("F", "Post", 5, vec![]),
        fragment("G", "User", 7, vec![]),
    ]);
    let map = generate_fragment_map(&d);
    assert_eq!(map.get(&"F".to_string()).unwrap().position, p(5));
    assert_eq!(map.get(&"G".to_string()).unwrap().position, p(7));
    assert!(map.get(&"H".to_string()).is_none());
}

#[test]
fn counting_root_fields_expands_fragments() {
    let d = doc(vec![fragment("F", "Subscription", 1, vec![fld("a", 2, None)])]);
    let map = generate_fragment_map(&d);
    let one = SelectionSet { position: p(5), selections: vec![spread("F", 6)] };
    assert!(!selection_set_has_more_than_one_fields(&map, &one));
    let two = SelectionSet { position: p(5), selections: vec![spread("F", 6), inline(None, 7, vec![fld("b", 8, None)])] };
    assert!(selection_set_has_more_than_one_fields(&map, &two));
}

#[test]
fn schema_rejects_duplicate_type_names() {
    let types = vec![
        TypeDefinition::Scalar(ScalarDefinition { position: p(1), name: id("A", 1) }),
        TypeDefinition::Scalar(ScalarDefinition { position: p(2), name: id("A", 2) }),
    ];
    let roots = RootTypes { query_type: None, mutation_type: None, subscription_type: None };
    assert!(Schema::new(types, vec![], roots, p(0)).is_none());
}

#[test]
fn kinds_of_type_definitions() {
    let s = schema();
    let kinds: Vec<TypeKind> = s.types().iter().map(kind_of_type_definition).collect();
    assert_eq!(kinds[0], TypeKind::Object);
    assert_eq!(kinds[4], TypeKind::Interface);
    assert_eq!(kinds[6], TypeKind::Union);
    assert_eq!(kinds[7], TypeKind::Scalar);
    assert_eq!(kinds[10], TypeKind::InputObject);
}

/// type Query { a: A, u: U, broken: Missing }  type A { x: String }  union U = A | S
/// union V = B   type B { y: String }   scalar S   scalar String   interface I { x: String }
fn odd_schema() -> Schema {
    let types = vec![
        object(
            "Query",
            100,
            &[],
            vec![field_def("a", named("A")), field_def("u", named("U")), field_def("broken", named("Missing"))],
        ),
        object("A", 110, &[], vec![field_def("x", named("String"))]),
        object("B", 115, &[], vec![field_def("y", named("String"))]),
        TypeDefinition::Union(UnionDefinition {
            position: p(120),
            name: id("U", 120),
            members: vec![id("S", 121), id("A", 122)],
        }),
        TypeDefinition::Union(UnionDefinition { position: p(125), name: id("V", 125), members: vec![id("B", 126)] }),
        TypeDefinition::Scalar(ScalarDefinition { position: p(130), name: id("S", 130) }),
        TypeDefinition::Scalar(ScalarDefinition { position: p(131), name: id("String", 131) }),
        TypeDefinition::Interface(InterfaceDefinition {
            position: p(140),
            name: id("I", 140),
            implements: vec![],
            fields: vec![field_def("x", named("String"))],
        }),
    ];
    let roots = RootTypes { query_type: None, mutation_type: None, subscription_type: None };
    Schema::new(types, vec![], roots, Pos { line: 0, column: 0, file: 0, builtin: true }).unwrap()
}

#[test]
fn field_of_undefined_type_is_a_type_system_error() {
    let d = doc(vec![op(OperationType::Query, None, 1, vec![fld("broken", 2, None)])]);
    let errors = check_operation_document(&odd_schema(), &d);
    assert_eq!(messages(&errors), vec![&CheckErrorMessage::TypeSystemError]);
    assert_eq!(errors[0].position, p(2));
}

#[test]
fn union_member_that_is_not_an_object_is_a_type_system_error() {
    let d = doc(vec![op(
        OperationType::Query,
        None,
        1,
        vec![fld("u", 2, Some(vec![inline(Some("I"), 3, vec![fld("x", 4, None)])]))],
    )]);
    let errors = check_operation_document(&odd_schema(), &d);
    assert_eq!(messages(&errors), vec![&CheckErrorMessage::TypeSystemError]);
    assert_eq!(errors[0].position, p(121));
}

#[test]
fn disjoint_unions_never_match() {
    let d = doc(vec![op(
        OperationType::Query,
        None,
        1,
        vec![fld("u", 2, Some(vec![inline(Some("V"), 3, vec![]), inline(Some("U"), 4, vec![])]))],
    )]);
    let errors = check_operation_document(&odd_schema(), &d);
    assert_eq!(
        messages(&errors),
        vec![&CheckErrorMessage::FragmentConditionNeverMatches { condition: "V".to_string(), scope: "U".to_string() }]
    );
    assert_eq!(
        errors[0].additional_info,
        vec![
            (p(125), CheckErrorMessage::DefinitionPos { name: "U".to_string() }),
            (p(120), CheckErrorMessage::DefinitionPos { name: "V".to_string() }),
        ]
    );
}

#[test]
fn inline_fragment_on_unknown_type() {
    let d = doc(vec![op(OperationType::Query, None, 1, vec![inline(Some("Nope"), 2, vec![])])]);
    let errors = check_operation_document(&odd_schema(), &d);
    assert_eq!(messages(&errors), vec![&CheckErrorMessage::UnknownType { name: "Nope".to_string() }]);
}

#[test]
fn fragment_with_unknown_condition_is_reported_only_at_its_definition() {
    let d = doc(vec![
        op(OperationType::Query, None, 1, vec![fld("a", 2, Some(vec![spread("F", 3)]))]),
        fragment("F", "Nope", 10, vec![fld("zzz", 11, None)]),
    ]);
    let errors = check_operation_document(&odd_schema(), &d);
    assert_eq!(messages(&errors), vec![&CheckErrorMessage::UnknownType { name: "Nope".to_string() }]);
    assert_eq!(errors[0].position, p(10));
}

#[test]
fn unused_fragment_adds_no_errors() {
    let base = || {
        vec![
            op(OperationType::Query, None, 1, vec![fld("nope", 2, None), fld("user", 3, Some(vec![spread("Missing", 4)]))]),
            fragment("Used", "User", 10, vec![fld("id", 11, None)]),
        ]
    };
    let mut with_unused = base();
    with_unused.insert(1, fragment("Unused", "User", 20, vec![fld("zzz", 21, None), spread("Nowhere", 22)]));
    let before = check_operation_document(&schema(), &doc(base()));
    let after = check_operation_document(&schema(), &doc(with_unused));
    assert_eq!(before.len(), 2);
    assert_eq!(before, after);
}
