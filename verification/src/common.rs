//! Checks of directives and arguments, shared by the operation checks.
//!
//! These checks look at names only: a directive the schema does not declare,
//! a directive at a location it may not stand at, an argument that is not
//! defined, and a required argument that is missing. The values given to
//! arguments are not checked, and neither are the operation's variables that
//! those values use: the checks take no variable definitions.
use vstd::prelude::*;
use crate::ast::{Arguments, Directive, Ident, Pos, Type, Value};
use crate::error::{error_at, push_error, CheckError, CheckErrorMessage, CheckErrorView, MessageView};
use crate::schema::{DirectiveDefinition, InputValueDefinition, Schema};

verus! {

/// The arguments written at a field or a directive.
pub open spec fn given_arguments(args: Option<Arguments>) -> Seq<(Ident, Value)> {
    match args {
        Some(a) => a.arguments@,
        None => seq![],
    }
}

/// Some definition in `defs` is named `name`.
pub open spec fn has_definition_named(defs: Seq<InputValueDefinition>, name: Seq<char>) -> bool {
    exists|k: int| 0 <= k < defs.len() && #[trigger] defs[k].name.name@ == name
}

/// Some argument in `given` is named `name`.
pub open spec fn is_given(given: Seq<(Ident, Value)>, name: Seq<char>) -> bool {
    exists|k: int| 0 <= k < given.len() && #[trigger] given[k].0.name@ == name
}

/// An argument that must be given: its type is non-null and it has no default.
pub open spec fn is_required(d: InputValueDefinition) -> bool {
    d.ty is NonNull && d.default_value is None
}

/// One error for each given argument that no definition declares, in order.
pub open spec fn unknown_arguments_errors(
    given: Seq<(Ident, Value)>,
    defs: Seq<InputValueDefinition>,
) -> Seq<CheckErrorView>
    decreases given.len(),
{
    if given.len() == 0 {
        seq![]
    } else {
        let a = given.last().0;
        unknown_arguments_errors(given.drop_last(), defs) + if has_definition_named(defs, a.name@) {
            seq![]
        } else {
            seq![error_at(a.position, MessageView::UnknownArgument { name: a.name@ })]
        }
    }
}

/// One error, at `parent_pos`, for each required argument that is not given, in
/// the order of the definitions.
pub open spec fn missing_arguments_errors(
    given: Seq<(Ident, Value)>,
    defs: Seq<InputValueDefinition>,
    parent_pos: Pos,
) -> Seq<CheckErrorView>
    decreases defs.len(),
{
    if defs.len() == 0 {
        seq![]
    } else {
        let d = defs.last();
        missing_arguments_errors(given, defs.drop_last(), parent_pos) + if is_required(d) && !is_given(
            given,
            d.name.name@,
        ) {
            seq![error_at(parent_pos, MessageView::RequiredArgumentNotSpecified { name: d.name.name@ })]
        } else {
            seq![]
        }
    }
}

/// The errors of the arguments written at a field or a directive, checked
/// against the argument definitions.
pub open spec fn arguments_errors(
    parent_pos: Pos,
    args: Option<Arguments>,
    defs: Seq<InputValueDefinition>,
) -> Seq<CheckErrorView> {
    unknown_arguments_errors(given_arguments(args), defs) + missing_arguments_errors(
        given_arguments(args),
        defs,
        parent_pos,
    )
}

/// The directive may stand at `location`.
pub open spec fn allows_location(def: DirectiveDefinition, location: Seq<char>) -> bool {
    exists|k: int| 0 <= k < def.locations@.len() && #[trigger] def.locations@[k].name@ == location
}

/// The errors of one directive written at `location`.
pub open spec fn directive_errors(schema: Schema, d: Directive, location: Seq<char>) -> Seq<CheckErrorView> {
    match schema.spec_get_directive(d.name.name@) {
        None => seq![error_at(d.name.position, MessageView::UnknownDirective { name: d.name.name@ })],
        Some(def) => (if allows_location(def, location) {
            seq![]
        } else {
            seq![error_at(d.name.position, MessageView::DirectiveLocationNotAllowed { name: d.name.name@ })]
        }) + arguments_errors(d.name.position, d.arguments, def.arguments@),
    }
}

/// The errors of the directives written at `location`, in order.
pub open spec fn directives_errors(schema: Schema, ds: Seq<Directive>, location: Seq<char>) -> Seq<
    CheckErrorView,
>
    decreases ds.len(),
{
    if ds.len() == 0 {
        seq![]
    } else {
        directives_errors(schema, ds.drop_last(), location) + directive_errors(schema, ds.last(), location)
    }
}

fn has_definition(defs: &Vec<InputValueDefinition>, name: &String) -> (r: bool)
    ensures
        r == has_definition_named(defs@, name@),
{
    let mut k: usize = 0;
    while k < defs.len()
        invariant
            k <= defs@.len(),
            forall|j: int| 0 <= j < k ==> #[trigger] defs@[j].name.name@ != name@,
        decreases defs.len() - k,
    {
        if defs[k].name.name == *name {
            return true;
        }
        k = k + 1;
    }
    false
}

fn argument_given(args: &Option<Arguments>, name: &String) -> (r: bool)
    ensures
        r == is_given(given_arguments(*args), name@),
{
    match args {
        None => false,
        Some(a) => {
            let mut k: usize = 0;
            while k < a.arguments.len()
                invariant
                    k <= a.arguments@.len(),
                    given_arguments(*args) == a.arguments@,
                    forall|j: int| 0 <= j < k ==> #[trigger] a.arguments@[j].0.name@ != name@,
                decreases a.arguments.len() - k,
            {
                if a.arguments[k].0.name == *name {
                    assert(given_arguments(*args) == a.arguments@);
                    assert(given_arguments(*args)[k as int].0.name@ == name@);
                    return true;
                }
                k = k + 1;
            }
            false
        },
    }
}

/// Checks the arguments written at a field or a directive against the
/// argument definitions: an argument that is not defined, and a required
/// argument that is not given, are errors. Argument values, and the variables
/// they use, are not checked.
pub fn check_arguments(
    parent_pos: Pos,
    arguments: &Option<Arguments>,
    definitions: &Vec<InputValueDefinition>,
    result: &mut Vec<CheckError>,
)
    ensures
        final(result).deep_view() == old(result).deep_view() + arguments_errors(
            parent_pos,
            *arguments,
            definitions@,
        ),
{
    let ghost start = result.deep_view();
    let ghost given = given_arguments(*arguments);
    if let Some(a) = arguments {
        let mut k: usize = 0;
        assert(given.take(0) =~= Seq::<(Ident, Value)>::empty());
        assert(start + seq![] =~= start);
        while k < a.arguments.len()
            invariant
                k <= a.arguments@.len(),
                given == a.arguments@,
                result.deep_view() == start + unknown_arguments_errors(
                    given.take(k as int),
                    definitions@,
                ),
            decreases a.arguments.len() - k,
        {
            let ghost before = result.deep_view();
            assert(given.take(k + 1).drop_last() =~= given.take(k as int));
            let name = &a.arguments[k].0;
            if !has_definition(definitions, &name.name) {
                let e = CheckErrorMessage::UnknownArgument { name: name.name.clone() }.with_pos(
                    name.position,
                );
                push_error(result, e);
            }
            assert(result.deep_view() =~= start + unknown_arguments_errors(
                given.take(k + 1),
                definitions@,
            ));
            k = k + 1;
        }
        assert(given.take(k as int) =~= given);
    } else {
        assert(start + unknown_arguments_errors(given, definitions@) =~= start);
    }
    let ghost mid = result.deep_view();
    let mut k: usize = 0;
    assert(definitions@.take(0) =~= Seq::<InputValueDefinition>::empty());
    assert(mid + seq![] =~= mid);
    while k < definitions.len()
        invariant
            k <= definitions@.len(),
            given == given_arguments(*arguments),
            result.deep_view() == mid + missing_arguments_errors(
                given,
                definitions@.take(k as int),
                parent_pos,
            ),
        decreases definitions.len() - k,
    {
        assert(definitions@.take(k + 1).drop_last() =~= definitions@.take(k as int));
        let d = &definitions[k];
        let required = match &d.ty {
            Type::NonNull(_, _) => d.default_value.is_none(),
            _ => false,
        };
        assert(required == is_required(*d));
        assert(definitions@.take(k + 1).last() == *d);
        let given_here = argument_given(arguments, &d.name.name);
        assert(missing_arguments_errors(given, definitions@.take(k + 1), parent_pos)
            == missing_arguments_errors(given, definitions@.take(k as int), parent_pos) + if required && !given_here {
            seq![error_at(parent_pos, MessageView::RequiredArgumentNotSpecified { name: d.name.name@ })]
        } else {
            seq![]
        });
        if required && !given_here {
            let e = CheckErrorMessage::RequiredArgumentNotSpecified { name: d.name.name.clone() }.with_pos(
                parent_pos,
            );
            push_error(result, e);
        }
        assert(result.deep_view() =~= mid + missing_arguments_errors(
            given,
            definitions@.take(k + 1),
            parent_pos,
        ));
        k = k + 1;
    }
    assert(definitions@.take(k as int) =~= definitions@);
    assert(result.deep_view() =~= start + arguments_errors(parent_pos, *arguments, definitions@));
}

fn allows(def: &DirectiveDefinition, location: &String) -> (r: bool)
    ensures
        r == allows_location(*def, location@),
{
    let mut k: usize = 0;
    while k < def.locations.len()
        invariant
            k <= def.locations@.len(),
            forall|j: int| 0 <= j < k ==> #[trigger] def.locations@[j].name@ != location@,
        decreases def.locations.len() - k,
    {
        if def.locations[k].name == *location {
            return true;
        }
        k = k + 1;
    }
    false
}

/// Checks the directives written at `location` (such as `FIELD` or `QUERY`):
/// a directive that the schema does not declare, or that may not stand at
/// `location`, is an error, and the arguments of each declared directive are
/// checked by name ([`check_arguments`]). A non-repeatable directive written
/// twice is not reported.
pub fn check_directives(
    schema: &Schema,
    directives: &Vec<Directive>,
    location: &str,
    result: &mut Vec<CheckError>,
)
    ensures
        final(result).deep_view() == old(result).deep_view() + directives_errors(
            *schema,
            directives@,
            location@,
        ),
{
    let ghost start = result.deep_view();
    let location = location.to_owned();
    let mut k: usize = 0;
    assert(directives@.take(0) =~= Seq::<Directive>::empty());
    assert(start + seq![] =~= start);
    while k < directives.len()
        invariant
            k <= directives@.len(),
            result.deep_view() == start + directives_errors(
                *schema,
                directives@.take(k as int),
                location@,
            ),
        decreases directives.len() - k,
    {
        assert(directives@.take(k + 1).drop_last() =~= directives@.take(k as int));
        let d = &directives[k];
        match schema.get_directive(&d.name.name) {
            None => {
                let e = CheckErrorMessage::UnknownDirective { name: d.name.name.clone() }.with_pos(
                    d.name.position,
                );
                push_error(result, e);
            },
            Some(def) => {
                if !allows(def, &location) {
                    let e = CheckErrorMessage::DirectiveLocationNotAllowed {
                        name: d.name.name.clone(),
                    }.with_pos(d.name.position);
                    push_error(result, e);
                }
                check_arguments(d.name.position, &d.arguments, &def.arguments, result);
            },
        }
        assert(result.deep_view() =~= start + directives_errors(
            *schema,
            directives@.take(k + 1),
            location@,
        ));
        k = k + 1;
    }
    assert(directives@.take(k as int) =~= directives@);
}

} // verus!
