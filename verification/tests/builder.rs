use nitrogql::ast::{Pos, Type, Value};
use nitrogql::builder::{
    build_variable_definition, build_variables_definition, is_variable_definition_node, is_variables_definition_node,
    ParseNode, Rule,
};

fn p(line: usize, column: usize) -> Pos {
    Pos { line, column, file: 0, builtin: false }
}

fn node(rule: Rule, column: usize, text: &str, children: Vec<ParseNode>) -> ParseNode {
    ParseNode { rule, position: p(1, column), text: text.to_string(), children }
}

fn name(column: usize, text: &str) -> ParseNode {
    node(Rule::Name, column, text, vec![])
}

fn variable(column: usize, n: &str) -> ParseNode {
    node(Rule::Variable, column, &format!("${}", n), vec![name(column + 1, n)])
}

fn named_type(column: usize, n: &str) -> ParseNode {
    node(Rule::NamedType, column, n, vec![name(column, n)])
}

/// `$id: [ID!]! = [1, true] @deprecated(reason: "old")`
fn full_definition() -> ParseNode {
    let inner = node(Rule::NonNullType, 6, "ID!", vec![named_type(6, "ID")]);
    let list = node(Rule::ListType, 5, "[ID!]", vec![node(Rule::Type, 6, "ID!", vec![inner])]);
    let ty = node(Rule::Type, 5, "[ID!]!", vec![node(Rule::NonNullType, 5, "[ID!]!", vec![list])]);
    let value = node(
        Rule::Value,
        15,
        "[1, true]",
        vec![node(
            Rule::ListValue,
            15,
            "[1, true]",
            vec![
                node(Rule::Value, 16, "1", vec![node(Rule::IntValue, 16, "1", vec![])]),
                node(Rule::Value, 19, "true", vec![node(Rule::BooleanValue, 19, "true", vec![])]),
            ],
        )],
    );
    let default_value = node(Rule::DefaultValue, 13, "= [1, true]", vec![value]);
    let argument = node(
        Rule::Argument,
        37,
        "reason: \"old\"",
        vec![
            name(37, "reason"),
            node(Rule::Value, 45, "\"old\"", vec![node(Rule::StringValue, 45, "\"old\"", vec![])]),
        ],
    );
    let directive = node(
        Rule::Directive,
        25,
        "@deprecated(reason: \"old\")",
        vec![name(26, "deprecated"), node(Rule::Arguments, 36, "(reason: \"old\")", vec![argument])],
    );
    let directives = node(Rule::Directives, 25, "@deprecated(reason: \"old\")", vec![directive]);
    node(Rule::VariableDefinition, 1, "", vec![variable(1, "id"), ty, default_value, directives])
}

#[test]
fn builds_full_variable_definition() {
    let n = full_definition();
    assert!(is_variable_definition_node(&n));
    let vd = build_variable_definition(&n);
    assert_eq!(vd.pos, p(1, 1));
    assert_eq!(vd.name.name, "id");
    assert_eq!(vd.name.position, p(1, 1));
    match &vd.ty {
        Type::NonNull(list, pos) => {
            assert_eq!(*pos, p(1, 5));
            match &**list {
                Type::List(inner, _) => match &**inner {
                    Type::NonNull(named, _) => match &**named {
                        Type::Named(id) => assert_eq!(id.name, "ID"),
                        other => panic!("unexpected {:?}", other),
                    },
                    other => panic!("unexpected {:?}", other),
                },
                other => panic!("unexpected {:?}", other),
            }
        },
        other => panic!("unexpected {:?}", other),
    }
    match &vd.default_value {
        Some(Value::List(items, _)) => {
            assert_eq!(items.len(), 2);
            assert!(matches!(&items[0], Value::Int(t, _) if t == "1"));
            assert!(matches!(&items[1], Value::Boolean(true, _)));
        },
        other => panic!("unexpected {:?}", other),
    }
    assert_eq!(vd.directives.len(), 1);
    assert_eq!(vd.directives[0].name.name, "deprecated");
    let args = vd.directives[0].arguments.as_ref().unwrap();
    assert_eq!(args.arguments.len(), 1);
    assert_eq!(args.arguments[0].0.name, "reason");
    assert!(matches!(&args.arguments[0].1, Value::String(t, _) if t == "\"old\""));
}

#[test]
fn builds_minimal_variable_definition() {
    let n = node(
        Rule::VariableDefinition,
        1,
        "$a: Int",
        vec![variable(1, "a"), node(Rule::Type, 5, "Int", vec![named_type(5, "Int")])],
    );
    assert!(is_variable_definition_node(&n));
    let vd = build_variable_definition(&n);
    assert_eq!(vd.name.name, "a");
    assert!(vd.default_value.is_none());
    assert!(vd.directives.is_empty());
    assert!(matches!(&vd.ty, Type::Named(id) if id.name == "Int" && id.position == p(1, 5)));
}

#[test]
fn directives_without_default_value() {
    let directives = node(
        Rule::Directives,
        9,
        "@x",
        vec![node(Rule::Directive, 9, "@x", vec![name(10, "x")])],
    );
    let n = node(
        Rule::VariableDefinition,
        1,
        "$a: Int @x",
        vec![variable(1, "a"), node(Rule::Type, 5, "Int", vec![named_type(5, "Int")]), directives],
    );
    assert!(is_variable_definition_node(&n));
    let vd = build_variable_definition(&n);
    assert!(vd.default_value.is_none());
    assert_eq!(vd.directives.len(), 1);
    assert!(vd.directives[0].arguments.is_none());
}

#[test]
fn malformed_definition_is_recognised() {
    let n = node(Rule::VariableDefinition, 1, "$a", vec![variable(1, "a")]);
    assert!(!is_variable_definition_node(&n));
    let bad_type = node(
        Rule::VariableDefinition,
        1,
        "$a: ?",
        vec![variable(1, "a"), node(Rule::Type, 5, "?", vec![name(5, "?")])],
    );
    assert!(!is_variable_definition_node(&bad_type));
}

#[test]
fn builds_variables_definition_in_order() {
    let def = |c: usize, v: &str| {
        node(
            Rule::VariableDefinition,
            c,
            "",
            vec![variable(c, v), node(Rule::Type, c + 4, "Int", vec![named_type(c + 4, "Int")])],
        )
    };
    let n = node(Rule::VariablesDefinition, 0, "($a: Int, $b: Int)", vec![def(1, "a"), def(11, "b")]);
    assert!(is_variables_definition_node(&n));
    let vars = build_variables_definition(&n);
    assert_eq!(vars.position, p(1, 0));
    let names: Vec<&str> = vars.definitions.iter().map(|d| d.name.name.as_str()).collect();
    assert_eq!(names, vec!["a", "b"]);
}
