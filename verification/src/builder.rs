//! Building the syntax tree of variable definitions from a parse tree.
//!
//! The parse tree is what a grammar-driven parser produces: each node has
//! the grammar rule it matched, where it starts, the text it covers, and
//! the nodes of its sub-rules in order.
use vstd::prelude::*;
use crate::ast::{Arguments, Directive, Ident, Pos, Type, Value, Variable, VariableDefinition, VariablesDefinition};

verus! {

/// The grammar rules that the builders read.
#[derive(Clone, Copy, Debug, PartialEq, Eq, Structural)]
pub enum Rule {
    VariablesDefinition,
    VariableDefinition,
    Variable,
    Name,
    Type,
    NamedType,
    ListType,
    NonNullType,
    DefaultValue,
    Value,
    IntValue,
    FloatValue,
    StringValue,
    BooleanValue,
    NullValue,
    EnumValue,
    ListValue,
    ObjectValue,
    ObjectField,
    Directives,
    Directive,
    Arguments,
    Argument,
}

/// One node of a parse tree.
#[derive(Debug)]
pub struct ParseNode {
    pub rule: Rule,
    pub position: Pos,
    /// The source text that the node covers.
    pub text: String,
    /// The nodes of the sub-rules, in source order.
    pub children: Vec<ParseNode>,
}

// ---------------------------------------------------------------------------
// The shape of the parse trees that the grammar produces
// ---------------------------------------------------------------------------

/// `n` has exactly one child, of rule `r`.
pub open spec fn has_one_child_of(n: ParseNode, r: Rule) -> bool {
    n.children@.len() == 1 && n.children@[0].rule == r
}

/// `Variable: "$" Name`
pub open spec fn wf_variable(n: ParseNode) -> bool {
    n.rule == Rule::Variable && has_one_child_of(n, Rule::Name)
}

/// `Type: NamedType | ListType | NonNullType`
pub open spec fn wf_type(n: ParseNode) -> bool
    decreases n, 1nat,
{
    n.rule == Rule::Type && n.children@.len() == 1 && wf_type_body(n.children@[0])
}

/// `NamedType: Name`, `ListType: "[" Type "]"`, `NonNullType: (NamedType | ListType) "!"`
pub open spec fn wf_type_body(c: ParseNode) -> bool
    decreases c, 0nat,
{
    match c.rule {
        Rule::NamedType => has_one_child_of(c, Rule::Name),
        Rule::ListType => c.children@.len() == 1 && wf_type(c.children@[0]),
        Rule::NonNullType => c.children@.len() == 1 && (c.children@[0].rule == Rule::NamedType
            || c.children@[0].rule == Rule::ListType) && wf_type_body(c.children@[0]),
        _ => false,
    }
}

/// `Value` wraps one of the value forms.
pub open spec fn wf_value(n: ParseNode) -> bool
    decreases n, 1nat,
{
    n.rule == Rule::Value && n.children@.len() == 1 && wf_value_body(n.children@[0])
}

/// The value forms: a variable, a literal, a list of values, or an object
/// of fields `Name ":" Value`.
pub open spec fn wf_value_body(c: ParseNode) -> bool
    decreases c, 0nat,
{
    match c.rule {
        Rule::Variable => wf_variable(c),
        Rule::IntValue | Rule::FloatValue | Rule::StringValue | Rule::BooleanValue | Rule::NullValue
        | Rule::EnumValue => true,
        Rule::ListValue => forall|k: int| 0 <= k < c.children@.len() ==> wf_value(#[trigger] c.children@[k]),
        Rule::ObjectValue => forall|k: int| 0 <= k < c.children@.len() ==> wf_object_field(#[trigger] c.children@[k]),
        _ => false,
    }
}

/// `ObjectField: Name ":" Value`
pub open spec fn wf_object_field(f: ParseNode) -> bool
    decreases f, 2nat,
{
    f.rule == Rule::ObjectField && f.children@.len() == 2 && f.children@[0].rule == Rule::Name && wf_value(
        f.children@[1],
    )
}

/// `Argument: Name ":" Value`
pub open spec fn wf_argument(a: ParseNode) -> bool {
    a.rule == Rule::Argument && a.children@.len() == 2 && a.children@[0].rule == Rule::Name && wf_value(
        a.children@[1],
    )
}

/// `Arguments: "(" Argument+ ")"`
pub open spec fn wf_arguments(n: ParseNode) -> bool {
    n.rule == Rule::Arguments && forall|k: int| 0 <= k < n.children@.len() ==> wf_argument(#[trigger] n.children@[k])
}

/// `Directive: "@" Name Arguments?`
pub open spec fn wf_directive(d: ParseNode) -> bool {
    d.rule == Rule::Directive && (d.children@.len() == 1 || d.children@.len() == 2) && d.children@[0].rule
        == Rule::Name && (d.children@.len() == 2 ==> wf_arguments(d.children@[1]))
}

/// `Directives: Directive+`
pub open spec fn wf_directives(n: ParseNode) -> bool {
    n.rule == Rule::Directives && forall|k: int| 0 <= k < n.children@.len() ==> wf_directive(#[trigger] n.children@[k])
}

/// `DefaultValue: "=" Value`
pub open spec fn wf_default_value(n: ParseNode) -> bool {
    n.rule == Rule::DefaultValue && n.children@.len() == 1 && wf_value(n.children@[0])
}

/// `VariableDefinition: Variable ":" Type DefaultValue? Directives?`
pub open spec fn wf_variable_definition(n: ParseNode) -> bool {
    let cs = n.children@;
    &&& n.rule == Rule::VariableDefinition
    &&& 2 <= cs.len() <= 4
    &&& wf_variable(cs[0])
    &&& wf_type(cs[1])
    &&& cs.len() == 3 ==> (wf_default_value(cs[2]) || wf_directives(cs[2]))
    &&& cs.len() == 4 ==> (wf_default_value(cs[2]) && wf_directives(cs[3]))
}

// ---------------------------------------------------------------------------
// What the builders make of a parse tree
// ---------------------------------------------------------------------------

/// The identifier that a `Name` node spells.
pub open spec fn ident_of(n: ParseNode) -> Ident {
    Ident { name: n.text, position: n.position }
}

/// The variable that a `Variable` node spells.
pub open spec fn variable_of(n: ParseNode) -> Variable {
    Variable { name: n.children@[0].text, position: n.position }
}

/// `t` is the type that the `Type` node `n` spells.
pub open spec fn is_type_of(t: Type, n: ParseNode) -> bool
    decreases n, 1nat,
{
    n.children@.len() == 1 && is_type_body_of(t, n.children@[0])
}

/// `t` is the type that the node `c` (a named, list or non-null type) spells.
pub open spec fn is_type_body_of(t: Type, c: ParseNode) -> bool
    decreases c, 0nat,
{
    match c.rule {
        Rule::NamedType => c.children@.len() == 1 && t == Type::Named(ident_of(c.children@[0])),
        Rule::ListType => c.children@.len() == 1 && match t {
            Type::List(inner, pos) => pos == c.position && is_type_of(*inner, c.children@[0]),
            _ => false,
        },
        Rule::NonNullType => c.children@.len() == 1 && match t {
            Type::NonNull(inner, pos) => pos == c.position && is_type_body_of(*inner, c.children@[0]),
            _ => false,
        },
        _ => false,
    }
}

/// `v` is the value that the `Value` node `n` spells.
pub open spec fn is_value_of(v: Value, n: ParseNode) -> bool
    decreases n, 1nat,
{
    n.children@.len() == 1 && is_value_body_of(v, n.children@[0])
}

/// `v` is the value that the value form `c` spells; literals keep their text as written.
pub open spec fn is_value_body_of(v: Value, c: ParseNode) -> bool
    decreases c, 0nat,
{
    match c.rule {
        Rule::Variable => c.children@.len() == 1 && v == Value::Variable(variable_of(c)),
        Rule::IntValue => v == Value::Int(c.text, c.position),
        Rule::FloatValue => v == Value::Float(c.text, c.position),
        Rule::StringValue => v == Value::String(c.text, c.position),
        Rule::BooleanValue => v == Value::Boolean(c.text@ == "true"@, c.position),
        Rule::NullValue => v == Value::Null(c.position),
        Rule::EnumValue => v == Value::Enum(c.text, c.position),
        Rule::ListValue => match v {
            Value::List(items, pos) => pos == c.position && items@.len() == c.children@.len() && forall|k: int|
                0 <= k < items@.len() ==> is_value_of(#[trigger] items@[k], c.children@[k]),
            _ => false,
        },
        Rule::ObjectValue => match v {
            Value::Object(fields, pos) => pos == c.position && fields@.len() == c.children@.len() && forall|k: int|
                0 <= k < fields@.len() ==> is_object_field_of(#[trigger] fields@[k], c.children@[k]),
            _ => false,
        },
        _ => false,
    }
}

/// `f` is the object field that the `ObjectField` node `n` spells.
pub open spec fn is_object_field_of(f: (Ident, Value), n: ParseNode) -> bool
    decreases n, 2nat,
{
    n.children@.len() == 2 && f.0 == ident_of(n.children@[0]) && is_value_of(f.1, n.children@[1])
}

/// `args` are the arguments that the `Arguments` node `n` spells.
pub open spec fn is_arguments_of(args: Arguments, n: ParseNode) -> bool {
    &&& args.position == n.position
    &&& args.arguments@.len() == n.children@.len()
    &&& forall|k: int|
        0 <= k < args.arguments@.len() ==> (#[trigger] args.arguments@[k]).0 == ident_of(n.children@[k].children@[0])
            && is_value_of(args.arguments@[k].1, n.children@[k].children@[1])
}

/// `d` is the directive that the `Directive` node `n` spells.
pub open spec fn is_directive_of(d: Directive, n: ParseNode) -> bool {
    &&& d.position == n.position
    &&& d.name == ident_of(n.children@[0])
    &&& (n.children@.len() == 1 ==> d.arguments is None)
    &&& (n.children@.len() == 2 ==> (d.arguments matches Some(a) && is_arguments_of(a, n.children@[1])))
}

/// `ds` are the directives that the `Directives` node `n` spells.
pub open spec fn is_directives_of(ds: Seq<Directive>, n: ParseNode) -> bool {
    ds.len() == n.children@.len() && forall|k: int| 0 <= k < ds.len() ==> is_directive_of(#[trigger] ds[k], n.children@[k])
}

/// `vd` is the variable definition that the `VariableDefinition` node `n` spells.
pub open spec fn is_variable_definition_of(vd: VariableDefinition, n: ParseNode) -> bool {
    let cs = n.children@;
    let default_node = if cs.len() >= 3 && cs[2].rule == Rule::DefaultValue {
        Some(cs[2])
    } else {
        None
    };
    let directives_node = if cs.len() == 4 {
        Some(cs[3])
    } else if cs.len() == 3 && cs[2].rule == Rule::Directives {
        Some(cs[2])
    } else {
        None
    };
    &&& vd.pos == n.position
    &&& vd.name == variable_of(cs[0])
    &&& is_type_of(vd.ty, cs[1])
    &&& match default_node {
        Some(dn) => vd.default_value matches Some(v) && is_value_of(v, dn.children@[0]),
        None => vd.default_value is None,
    }
    &&& match directives_node {
        Some(dn) => is_directives_of(vd.directives@, dn),
        None => vd.directives@.len() == 0,
    }
}

/// The children of rule `VariableDefinition`, in order.
pub open spec fn variable_definition_children(cs: Seq<ParseNode>) -> Seq<ParseNode>
    decreases cs.len(),
{
    if cs.len() == 0 {
        seq![]
    } else {
        let rest = variable_definition_children(cs.drop_last());
        if cs.last().rule == Rule::VariableDefinition {
            rest.push(cs.last())
        } else {
            rest
        }
    }
}

// ---------------------------------------------------------------------------
// Builders
// ---------------------------------------------------------------------------

fn build_name(n: &ParseNode) -> (r: Ident)
    ensures
        r == ident_of(*n),
{
    Ident { name: n.text.clone(), position: n.position }
}

fn build_variable(n: &ParseNode) -> (r: Variable)
    requires
        wf_variable(*n),
    ensures
        r == variable_of(*n),
{
    Variable { name: n.children[0].text.clone(), position: n.position }
}

fn build_type(n: &ParseNode) -> (r: Type)
    requires
        wf_type(*n),
    ensures
        is_type_of(r, *n),
    decreases *n, 1nat,
{
    build_type_body(&n.children[0])
}

fn build_type_body(c: &ParseNode) -> (r: Type)
    requires
        wf_type_body(*c),
    ensures
        is_type_body_of(r, *c),
    decreases *c, 0nat,
{
    match c.rule {
        Rule::NamedType => Type::Named(build_name(&c.children[0])),
        Rule::ListType => Type::List(Box::new(build_type(&c.children[0])), c.position),
        _ => {
            assert(c.rule == Rule::NonNullType);
            Type::NonNull(Box::new(build_type_body(&c.children[0])), c.position)
        },
    }
}

fn build_value(n: &ParseNode) -> (r: Value)
    requires
        wf_value(*n),
    ensures
        is_value_of(r, *n),
    decreases *n, 1nat,
{
    build_value_body(&n.children[0])
}

fn build_value_body(c: &ParseNode) -> (r: Value)
    requires
        wf_value_body(*c),
    ensures
        is_value_body_of(r, *c),
    decreases *c, 0nat,
{
    match c.rule {
        Rule::Variable => Value::Variable(build_variable(c)),
        Rule::IntValue => Value::Int(c.text.clone(), c.position),
        Rule::FloatValue => Value::Float(c.text.clone(), c.position),
        Rule::StringValue => Value::String(c.text.clone(), c.position),
        Rule::BooleanValue => Value::Boolean(c.text == "true".to_owned(), c.position),
        Rule::NullValue => Value::Null(c.position),
        Rule::EnumValue => Value::Enum(c.text.clone(), c.position),
        Rule::ListValue => {
            let mut items: Vec<Value> = Vec::new();
            let mut k: usize = 0;
            while k < c.children.len()
                invariant
                    k <= c.children@.len(),
                    items@.len() == k,
                    c.rule == Rule::ListValue,
                    wf_value_body(*c),
                    forall|j: int| 0 <= j < k ==> is_value_of(#[trigger] items@[j], c.children@[j]),
                decreases c.children.len() - k,
            {
                assert(wf_value(c.children@[k as int]));
                items.push(build_value(&c.children[k]));
                k = k + 1;
            }
            Value::List(items, c.position)
        },
        _ => {
            assert(c.rule == Rule::ObjectValue);
            let mut fields: Vec<(Ident, Value)> = Vec::new();
            let mut k: usize = 0;
            while k < c.children.len()
                invariant
                    k <= c.children@.len(),
                    fields@.len() == k,
                    c.rule == Rule::ObjectValue,
                    wf_value_body(*c),
                    forall|j: int| 0 <= j < k ==> is_object_field_of(#[trigger] fields@[j], c.children@[j]),
                decreases c.children.len() - k,
            {
                assert(wf_object_field(c.children@[k as int]));
                fields.push(build_object_field(&c.children[k]));
                k = k + 1;
            }
            Value::Object(fields, c.position)
        },
    }
}

fn build_object_field(f: &ParseNode) -> (r: (Ident, Value))
    requires
        wf_object_field(*f),
    ensures
        is_object_field_of(r, *f),
    decreases *f, 2nat,
{
    (build_name(&f.children[0]), build_value(&f.children[1]))
}

fn build_arguments(n: &ParseNode) -> (r: Arguments)
    requires
        wf_arguments(*n),
    ensures
        is_arguments_of(r, *n),
{
    let mut arguments: Vec<(Ident, Value)> = Vec::new();
    let mut k: usize = 0;
    while k < n.children.len()
        invariant
            k <= n.children@.len(),
            arguments@.len() == k,
            wf_arguments(*n),
            forall|j: int|
                0 <= j < k ==> (#[trigger] arguments@[j]).0 == ident_of(n.children@[j].children@[0])
                    && is_value_of(arguments@[j].1, n.children@[j].children@[1]),
        decreases n.children.len() - k,
    {
        let a = &n.children[k];
        assert(wf_argument(*a));
        arguments.push((build_name(&a.children[0]), build_value(&a.children[1])));
        k = k + 1;
    }
    Arguments { position: n.position, arguments }
}

fn build_directive(d: &ParseNode) -> (r: Directive)
    requires
        wf_directive(*d),
    ensures
        is_directive_of(r, *d),
{
    let arguments = if d.children.len() == 2 {
        Some(build_arguments(&d.children[1]))
    } else {
        None
    };
    Directive { position: d.position, name: build_name(&d.children[0]), arguments }
}

fn build_directives(n: &ParseNode) -> (r: Vec<Directive>)
    requires
        wf_directives(*n),
    ensures
        is_directives_of(r@, *n),
{
    let mut directives: Vec<Directive> = Vec::new();
    let mut k: usize = 0;
    while k < n.children.len()
        invariant
            k <= n.children@.len(),
            directives@.len() == k,
            wf_directives(*n),
            forall|j: int| 0 <= j < k ==> is_directive_of(#[trigger] directives@[j], n.children@[j]),
        decreases n.children.len() - k,
    {
        assert(wf_directive(n.children@[k as int]));
        directives.push(build_directive(&n.children[k]));
        k = k + 1;
    }
    directives
}

/// Builds one variable definition from its `VariableDefinition` node: the
/// variable, its type, and the optional default value and directives, in
/// that order.
pub fn build_variable_definition(pair: &ParseNode) -> (r: VariableDefinition)
    requires
        wf_variable_definition(*pair),
    ensures
        is_variable_definition_of(r, *pair),
{
    let pos = pair.position;
    let variable = &pair.children[0];
    let ty = &pair.children[1];
    let mut default_value: Option<&ParseNode> = None;
    let mut directives: Option<&ParseNode> = None;
    let mut next: usize = 2;
    if next < pair.children.len() && pair.children[next].rule == Rule::DefaultValue {
        default_value = Some(&pair.children[next]);
        next = next + 1;
    }
    if next < pair.children.len() && pair.children[next].rule == Rule::Directives {
        directives = Some(&pair.children[next]);
    }
    let default_value = match default_value {
        Some(dv) => Some(build_value(&dv.children[0])),
        None => None,
    };
    let directives = match directives {
        Some(ds) => build_directives(ds),
        None => Vec::new(),
    };
    VariableDefinition { pos, name: build_variable(variable), ty: build_type(ty), default_value, directives }
}

/// Builds the variables of an operation from its `VariablesDefinition` node:
/// one definition for each `VariableDefinition` child, in order.
pub fn build_variables_definition(pair: &ParseNode) -> (r: VariablesDefinition)
    requires
        forall|k: int|
            0 <= k < pair.children@.len() && (#[trigger] pair.children@[k]).rule == Rule::VariableDefinition
                ==> wf_variable_definition(pair.children@[k]),
    ensures
        r.position == pair.position,
        r.definitions@.len() == variable_definition_children(pair.children@).len(),
        forall|k: int|
            0 <= k < r.definitions@.len() ==> is_variable_definition_of(
                #[trigger] r.definitions@[k],
                variable_definition_children(pair.children@)[k],
            ),
{
    let ghost cs = pair.children@;
    let mut definitions: Vec<VariableDefinition> = Vec::new();
    let mut i: usize = 0;
    assert(cs.take(0) =~= Seq::<ParseNode>::empty());
    while i < pair.children.len()
        invariant
            i <= cs.len(),
            cs == pair.children@,
            forall|k: int|
                0 <= k < cs.len() && (#[trigger] cs[k]).rule == Rule::VariableDefinition ==> wf_variable_definition(
                    cs[k],
                ),
            definitions@.len() == variable_definition_children(cs.take(i as int)).len(),
            forall|k: int|
                0 <= k < definitions@.len() ==> is_variable_definition_of(
                    #[trigger] definitions@[k],
                    variable_definition_children(cs.take(i as int))[k],
                ),
        decreases cs.len() - i,
    {
        assert(cs.take(i + 1).drop_last() =~= cs.take(i as int));
        let c = &pair.children[i];
        if c.rule == Rule::VariableDefinition {
            definitions.push(build_variable_definition(c));
        }
        i = i + 1;
    }
    assert(cs.take(i as int) =~= cs);
    VariablesDefinition { position: pair.position, definitions }
}

/// The optional parts of a variable definition are read by their rules,
/// wherever they stand: a `DefaultValue` child gives the definition that value
/// as its default, whether or not directives follow it, and a `Directives`
/// child gives it those directives, whether or not a default value comes
/// before it. Without such a child there is no default value, or no
/// directive.
pub proof fn lemma_optional_parts_by_rule(n: ParseNode, vd: VariableDefinition)
    requires
        wf_variable_definition(n),
        is_variable_definition_of(vd, n),
    ensures
        forall|k: int|
            0 <= k < n.children@.len() && (#[trigger] n.children@[k]).rule == Rule::DefaultValue ==> (
            vd.default_value matches Some(v) && is_value_of(v, n.children@[k].children@[0])),
        forall|k: int|
            0 <= k < n.children@.len() && (#[trigger] n.children@[k]).rule == Rule::Directives ==> is_directives_of(
                vd.directives@,
                n.children@[k],
            ),
        (forall|k: int| 0 <= k < n.children@.len() ==> (#[trigger] n.children@[k]).rule != Rule::DefaultValue)
            ==> vd.default_value is None,
        (forall|k: int| 0 <= k < n.children@.len() ==> (#[trigger] n.children@[k]).rule != Rule::Directives)
            ==> vd.directives@.len() == 0,
{
    let cs = n.children@;
    assert(cs[0].rule == Rule::Variable && cs[1].rule == Rule::Type);
    if cs.len() >= 3 {
        assert(cs[2].rule == Rule::DefaultValue || cs[2].rule == Rule::Directives);
    }
    if cs.len() == 4 {
        assert(cs[3].rule == Rule::Directives);
    }
}

// ---------------------------------------------------------------------------
// Shape checks
// ---------------------------------------------------------------------------

fn one_child_of(n: &ParseNode, r: Rule) -> (b: bool)
    ensures
        b == has_one_child_of(*n, r),
{
    n.children.len() == 1 && n.children[0].rule == r
}

fn shape_variable(n: &ParseNode) -> (b: bool)
    ensures
        b == wf_variable(*n),
{
    n.rule == Rule::Variable && one_child_of(n, Rule::Name)
}

fn shape_type(n: &ParseNode) -> (b: bool)
    ensures
        b == wf_type(*n),
    decreases *n, 1nat,
{
    n.rule == Rule::Type && n.children.len() == 1 && shape_type_body(&n.children[0])
}

fn shape_type_body(c: &ParseNode) -> (b: bool)
    ensures
        b == wf_type_body(*c),
    decreases *c, 0nat,
{
    match c.rule {
        Rule::NamedType => one_child_of(c, Rule::Name),
        Rule::ListType => c.children.len() == 1 && shape_type(&c.children[0]),
        Rule::NonNullType => c.children.len() == 1 && (c.children[0].rule == Rule::NamedType
            || c.children[0].rule == Rule::ListType) && shape_type_body(&c.children[0]),
        _ => false,
    }
}

fn shape_value(n: &ParseNode) -> (b: bool)
    ensures
        b == wf_value(*n),
    decreases *n, 1nat,
{
    n.rule == Rule::Value && n.children.len() == 1 && shape_value_body(&n.children[0])
}

fn shape_value_body(c: &ParseNode) -> (b: bool)
    ensures
        b == wf_value_body(*c),
    decreases *c, 0nat,
{
    match c.rule {
        Rule::Variable => shape_variable(c),
        Rule::IntValue | Rule::FloatValue | Rule::StringValue | Rule::BooleanValue | Rule::NullValue
        | Rule::EnumValue => true,
        Rule::ListValue => {
            let mut k: usize = 0;
            while k < c.children.len()
                invariant
                    k <= c.children@.len(),
                    c.rule == Rule::ListValue,
                    forall|j: int| 0 <= j < k ==> wf_value(#[trigger] c.children@[j]),
                decreases c.children.len() - k,
            {
                if !shape_value(&c.children[k]) {
                    return false;
                }
                k = k + 1;
            }
            true
        },
        Rule::ObjectValue => {
            let mut k: usize = 0;
            while k < c.children.len()
                invariant
                    k <= c.children@.len(),
                    c.rule == Rule::ObjectValue,
                    forall|j: int| 0 <= j < k ==> wf_object_field(#[trigger] c.children@[j]),
                decreases c.children.len() - k,
            {
                if !shape_object_field(&c.children[k]) {
                    return false;
                }
                k = k + 1;
            }
            true
        },
        _ => false,
    }
}

fn shape_object_field(f: &ParseNode) -> (b: bool)
    ensures
        b == wf_object_field(*f),
    decreases *f, 2nat,
{
    f.rule == Rule::ObjectField && f.children.len() == 2 && f.children[0].rule == Rule::Name && shape_value(
        &f.children[1],
    )
}

fn shape_argument(a: &ParseNode) -> (b: bool)
    ensures
        b == wf_argument(*a),
{
    a.rule == Rule::Argument && a.children.len() == 2 && a.children[0].rule == Rule::Name && shape_value(
        &a.children[1],
    )
}

fn shape_arguments(n: &ParseNode) -> (b: bool)
    ensures
        b == wf_arguments(*n),
{
    if n.rule != Rule::Arguments {
        return false;
    }
    let mut k: usize = 0;
    while k < n.children.len()
        invariant
            k <= n.children@.len(),
            forall|j: int| 0 <= j < k ==> wf_argument(#[trigger] n.children@[j]),
        decreases n.children.len() - k,
    {
        if !shape_argument(&n.children[k]) {
            return false;
        }
        k = k + 1;
    }
    true
}

fn shape_directive(d: &ParseNode) -> (b: bool)
    ensures
        b == wf_directive(*d),
{
    d.rule == Rule::Directive && (d.children.len() == 1 || d.children.len() == 2) && d.children[0].rule
        == Rule::Name && (d.children.len() != 2 || shape_arguments(&d.children[1]))
}

fn shape_directives(n: &ParseNode) -> (b: bool)
    ensures
        b == wf_directives(*n),
{
    if n.rule != Rule::Directives {
        return false;
    }
    let mut k: usize = 0;
    while k < n.children.len()
        invariant
            k <= n.children@.len(),
            forall|j: int| 0 <= j < k ==> wf_directive(#[trigger] n.children@[j]),
        decreases n.children.len() - k,
    {
        if !shape_directive(&n.children[k]) {
            return false;
        }
        k = k + 1;
    }
    true
}

fn shape_default_value(n: &ParseNode) -> (b: bool)
    ensures
        b == wf_default_value(*n),
{
    n.rule == Rule::DefaultValue && n.children.len() == 1 && shape_value(&n.children[0])
}

/// Whether a node has the shape that the grammar gives a `VariableDefinition`
/// (the shape [`build_variable_definition`] needs).
pub fn is_variable_definition_node(n: &ParseNode) -> (b: bool)
    ensures
        b == wf_variable_definition(*n),
{
    let len = n.children.len();
    if n.rule != Rule::VariableDefinition || len < 2 || len > 4 {
        return false;
    }
    if !shape_variable(&n.children[0]) || !shape_type(&n.children[1]) {
        return false;
    }
    if len == 3 {
        return shape_default_value(&n.children[2]) || shape_directives(&n.children[2]);
    }
    if len == 4 {
        return shape_default_value(&n.children[2]) && shape_directives(&n.children[3]);
    }
    true
}

/// Whether every `VariableDefinition` child of a node has the shape the
/// grammar gives it (what [`build_variables_definition`] needs).
pub fn is_variables_definition_node(n: &ParseNode) -> (b: bool)
    ensures
        b == forall|k: int|
            0 <= k < n.children@.len() && (#[trigger] n.children@[k]).rule == Rule::VariableDefinition
                ==> wf_variable_definition(n.children@[k]),
{
    let mut k: usize = 0;
    while k < n.children.len()
        invariant
            k <= n.children@.len(),
            forall|j: int|
                0 <= j < k && (#[trigger] n.children@[j]).rule == Rule::VariableDefinition ==> wf_variable_definition(
                    n.children@[j],
                ),
        decreases n.children.len() - k,
    {
        let c = &n.children[k];
        if c.rule == Rule::VariableDefinition && !is_variable_definition_node(c) {
            return false;
        }
        k = k + 1;
    }
    true
}

} // verus!
