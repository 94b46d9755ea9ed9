use vstd::prelude::*;

verus! {

/// What went wrong while reading or evaluating a program.
#[derive(Clone, Copy, Debug, PartialEq, Eq, Structural)]
pub enum ErrorKind {
    /// The tokens end in the middle of a construct.
    UnexpectedEOF,
    /// A rule name was expected.
    ExpectedIdentifier,
    /// A number was expected, or a literal is out of range.
    ExpectedNumber,
    /// A token inside `{ ... }` is no transform attribute.
    UnexpectedTransformToken,
    /// A token cannot start a statement.
    UnexpectedTopLevelToken,
    /// A rule definition cannot join the rules already under its name.
    DuplicateRuleOverflow,
    /// A block comment opens inside another one.
    NestedComment,
    /// An action invokes a rule that the table does not hold.
    UnknownRuleReference,
    /// Evaluation took more steps than it was allowed.
    StepLimit,
}

impl ErrorKind {
    /// A sentence that describes the error.
    pub fn message(&self) -> (r: &'static str)
        ensures
            r@ == match self {
                ErrorKind::UnexpectedEOF => "Unexpected end of file."@,
                ErrorKind::ExpectedIdentifier => "Expected an identifier."@,
                ErrorKind::ExpectedNumber => "Expected a number."@,
                ErrorKind::UnexpectedTransformToken => "Unexpected transform parsing token."@,
                ErrorKind::UnexpectedTopLevelToken => "Unexpected top level token."@,
                ErrorKind::DuplicateRuleOverflow => "A rule cannot be defined under this name again."@,
                ErrorKind::NestedComment => "Nested block comment."@,
                ErrorKind::UnknownRuleReference => "Reference to an unknown rule."@,
                ErrorKind::StepLimit => "Evaluation step limit reached."@,
            },
    {
        match self {
            ErrorKind::UnexpectedEOF => "Unexpected end of file.",
            ErrorKind::ExpectedIdentifier => "Expected an identifier.",
            ErrorKind::ExpectedNumber => "Expected a number.",
            ErrorKind::UnexpectedTransformToken => "Unexpected transform parsing token.",
            ErrorKind::UnexpectedTopLevelToken => "Unexpected top level token.",
            ErrorKind::DuplicateRuleOverflow => "A rule cannot be defined under this name again.",
            ErrorKind::NestedComment => "Nested block comment.",
            ErrorKind::UnknownRuleReference => "Reference to an unknown rule.",
            ErrorKind::StepLimit => "Evaluation step limit reached.",
        }
    }
}

/// An error with the span, in characters, of the text it concerns.
#[derive(Clone, Debug, PartialEq)]
pub struct Error {
    pub kind: ErrorKind,
    pub start: usize,
    pub end: usize,
    pub slice: String,
}

} // verus!
