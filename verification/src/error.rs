//! The errors that the checker reports.
use vstd::prelude::*;
use crate::ast::{OperationType, Pos};

verus! {

impl DeepView for Pos {
    type V = Pos;

    open spec fn deep_view(&self) -> Pos {
        *self
    }
}

/// The kind of a named type, as named in error messages.
#[derive(Clone, Copy, Debug, PartialEq, Eq, Structural)]
pub enum TypeKind {
    Scalar,
    Object,
    Interface,
    Union,
    Enum,
    InputObject,
}

/// What an error (or a note attached to it) says.
#[derive(Debug, PartialEq, Eq)]
pub enum CheckErrorMessage {
    UnNamedOperationMustBeSingle,
    DuplicateOperationName { operation_type: OperationType },
    AnotherDefinitionPos { name: String },
    DuplicateFragmentName { other_position: Pos },
    NoRootType { operation_type: OperationType },
    RootTypesAreDefinedHere,
    UnknownType { name: String },
    SubscriptionMustHaveExactlyOneRootField,
    InvalidFragmentTarget { name: String },
    DefinitionPos { name: String },
    DuplicatedVariableName { name: String },
    NoOutputType { name: String },
    SelectionOnInvalidType { kind: TypeKind, name: String },
    FieldNotFound { field_name: String, scope_name: String },
    TypeSystemError,
    MustSpecifySelectionSet { name: String },
    RecursingFragmentSpread { name: String },
    UnknownFragment { name: String },
    FragmentConditionNeverMatches { condition: String, scope: String },
    UnknownDirective { name: String },
    DirectiveLocationNotAllowed { name: String },
    UnknownArgument { name: String },
    RequiredArgumentNotSpecified { name: String },
}

/// The mathematical value of a [`CheckErrorMessage`].
pub enum MessageView {
    UnNamedOperationMustBeSingle,
    DuplicateOperationName { operation_type: OperationType },
    AnotherDefinitionPos { name: Seq<char> },
    DuplicateFragmentName { other_position: Pos },
    NoRootType { operation_type: OperationType },
    RootTypesAreDefinedHere,
    UnknownType { name: Seq<char> },
    SubscriptionMustHaveExactlyOneRootField,
    InvalidFragmentTarget { name: Seq<char> },
    DefinitionPos { name: Seq<char> },
    DuplicatedVariableName { name: Seq<char> },
    NoOutputType { name: Seq<char> },
    SelectionOnInvalidType { kind: TypeKind, name: Seq<char> },
    FieldNotFound { field_name: Seq<char>, scope_name: Seq<char> },
    TypeSystemError,
    MustSpecifySelectionSet { name: Seq<char> },
    RecursingFragmentSpread { name: Seq<char> },
    UnknownFragment { name: Seq<char> },
    FragmentConditionNeverMatches { condition: Seq<char>, scope: Seq<char> },
    UnknownDirective { name: Seq<char> },
    DirectiveLocationNotAllowed { name: Seq<char> },
    UnknownArgument { name: Seq<char> },
    RequiredArgumentNotSpecified { name: Seq<char> },
}

impl DeepView for CheckErrorMessage {
    type V = MessageView;

    open spec fn deep_view(&self) -> MessageView {
        match self {
            CheckErrorMessage::UnNamedOperationMustBeSingle => MessageView::UnNamedOperationMustBeSingle,
            CheckErrorMessage::DuplicateOperationName { operation_type } => MessageView::DuplicateOperationName {
                operation_type: *operation_type,
            },
            CheckErrorMessage::AnotherDefinitionPos { name } => MessageView::AnotherDefinitionPos { name: name@ },
            CheckErrorMessage::DuplicateFragmentName { other_position } => MessageView::DuplicateFragmentName {
                other_position: *other_position,
            },
            CheckErrorMessage::NoRootType { operation_type } => MessageView::NoRootType {
                operation_type: *operation_type,
            },
            CheckErrorMessage::RootTypesAreDefinedHere => MessageView::RootTypesAreDefinedHere,
            CheckErrorMessage::UnknownType { name } => MessageView::UnknownType { name: name@ },
            CheckErrorMessage::SubscriptionMustHaveExactlyOneRootField => MessageView::SubscriptionMustHaveExactlyOneRootField,
            CheckErrorMessage::InvalidFragmentTarget { name } => MessageView::InvalidFragmentTarget { name: name@ },
            CheckErrorMessage::DefinitionPos { name } => MessageView::DefinitionPos { name: name@ },
            CheckErrorMessage::DuplicatedVariableName { name } => MessageView::DuplicatedVariableName { name: name@ },
            CheckErrorMessage::NoOutputType { name } => MessageView::NoOutputType { name: name@ },
            CheckErrorMessage::SelectionOnInvalidType { kind, name } => MessageView::SelectionOnInvalidType {
                kind: *kind,
                name: name@,
            },
            CheckErrorMessage::FieldNotFound { field_name, scope_name } => MessageView::FieldNotFound {
                field_name: field_name@,
                scope_name: scope_name@,
            },
            CheckErrorMessage::TypeSystemError => MessageView::TypeSystemError,
            CheckErrorMessage::MustSpecifySelectionSet { name } => MessageView::MustSpecifySelectionSet { name: name@ },
            CheckErrorMessage::RecursingFragmentSpread { name } => MessageView::RecursingFragmentSpread { name: name@ },
            CheckErrorMessage::UnknownFragment { name } => MessageView::UnknownFragment { name: name@ },
            CheckErrorMessage::FragmentConditionNeverMatches { condition, scope } => MessageView::FragmentConditionNeverMatches {
                condition: condition@,
                scope: scope@,
            },
            CheckErrorMessage::UnknownDirective { name } => MessageView::UnknownDirective { name: name@ },
            CheckErrorMessage::DirectiveLocationNotAllowed { name } => MessageView::DirectiveLocationNotAllowed { name: name@ },
            CheckErrorMessage::UnknownArgument { name } => MessageView::UnknownArgument { name: name@ },
            CheckErrorMessage::RequiredArgumentNotSpecified { name } => MessageView::RequiredArgumentNotSpecified {
                name: name@,
            },
        }
    }
}

/// An error: where it is, what it says, and notes that point at related places.
#[derive(Debug, PartialEq, Eq)]
pub struct CheckError {
    pub position: Pos,
    pub message: CheckErrorMessage,
    pub additional_info: Vec<(Pos, CheckErrorMessage)>,
}

/// The mathematical value of a [`CheckError`].
pub struct CheckErrorView {
    pub position: Pos,
    pub message: MessageView,
    pub additional_info: Seq<(Pos, MessageView)>,
}

impl DeepView for CheckError {
    type V = CheckErrorView;

    open spec fn deep_view(&self) -> CheckErrorView {
        CheckErrorView {
            position: self.position,
            message: self.message.deep_view(),
            additional_info: self.additional_info.deep_view(),
        }
    }
}

/// An error at `position` that says `message`, with no notes.
pub open spec fn error_at(position: Pos, message: MessageView) -> CheckErrorView {
    CheckErrorView { position, message, additional_info: seq![] }
}

/// An error at `position` that says `message`, with the notes `info`.
pub open spec fn error_with_info(
    position: Pos,
    message: MessageView,
    info: Seq<(Pos, MessageView)>,
) -> CheckErrorView {
    CheckErrorView { position, message, additional_info: info }
}

impl CheckErrorMessage {
    /// An error at `position` that says this message.
    pub fn with_pos(self, position: Pos) -> (r: CheckError)
        ensures
            r.deep_view() == error_at(position, self.deep_view()),
    {
        let r = CheckError { position, message: self, additional_info: Vec::new() };
        assert(r.additional_info.deep_view() =~= Seq::<(Pos, MessageView)>::empty());
        r
    }
}

/// Appends an error to a list of errors.
pub(crate) fn push_error(result: &mut Vec<CheckError>, e: CheckError)
    ensures
        final(result).deep_view() == old(result).deep_view().push(e.deep_view()),
{
    let ghost before = result.deep_view();
    let ghost ev = e.deep_view();
    result.push(e);
    assert(result.deep_view() =~= before.push(ev));
}

/// A list of one note.
pub(crate) fn one_note(position: Pos, message: CheckErrorMessage) -> (r: Vec<(Pos, CheckErrorMessage)>)
    ensures
        r.deep_view() == seq![(position, message.deep_view())],
{
    let ghost mv = message.deep_view();
    let r = vec![(position, message)];
    assert(r.deep_view() =~= seq![(position, mv)]);
    r
}

/// A list of two notes.
pub(crate) fn two_notes(
    p1: Pos,
    m1: CheckErrorMessage,
    p2: Pos,
    m2: CheckErrorMessage,
) -> (r: Vec<(Pos, CheckErrorMessage)>)
    ensures
        r.deep_view() == seq![(p1, m1.deep_view()), (p2, m2.deep_view())],
{
    let ghost v1 = m1.deep_view();
    let ghost v2 = m2.deep_view();
    let r = vec![(p1, m1), (p2, m2)];
    assert(r.deep_view() =~= seq![(p1, v1), (p2, v2)]);
    r
}

impl CheckError {
    /// The same error with the notes `info`.
    pub fn with_additional_info(self, info: Vec<(Pos, CheckErrorMessage)>) -> (r: CheckError)
        ensures
            r.deep_view() == error_with_info(self.position, self.message.deep_view(), info.deep_view()),
    {
        CheckError { position: self.position, message: self.message, additional_info: info }
    }
}

} // verus!
