//! Diagnostics reported by the lexer, the parser, the semantic checks and
//! the runtime.
use vstd::prelude::*;

use crate::source::Span;

verus! {

#[derive(Debug, Clone, Copy, PartialEq, Eq, Structural)]
pub enum DiagnosticKind {
    UnexpectedCharacter,
    UnterminatedString,
    InvalidNumber,
    UnexpectedToken,
    ExpectedExpression,
    ExpectedStatement,
    InvalidAssignmentTarget,
    MissingDelimiter,
    InvalidLambdaParameterList,
    UnexpectedStatementEnd,
    AssignmentToUndeclaredName,
    DuplicateBinding,
    InvalidReturnContext,
    RuntimeError,
}

/// The name of a diagnostic kind, as its debug form prints it.
pub open spec fn diagnostic_kind_name(k: DiagnosticKind) -> Seq<char> {
    match k {
        DiagnosticKind::UnexpectedCharacter => "UnexpectedCharacter"@,
        DiagnosticKind::UnterminatedString => "UnterminatedString"@,
        DiagnosticKind::InvalidNumber => "InvalidNumber"@,
        DiagnosticKind::UnexpectedToken => "UnexpectedToken"@,
        DiagnosticKind::ExpectedExpression => "ExpectedExpression"@,
        DiagnosticKind::ExpectedStatement => "ExpectedStatement"@,
        DiagnosticKind::InvalidAssignmentTarget => "InvalidAssignmentTarget"@,
        DiagnosticKind::MissingDelimiter => "MissingDelimiter"@,
        DiagnosticKind::InvalidLambdaParameterList => "InvalidLambdaParameterList"@,
        DiagnosticKind::UnexpectedStatementEnd => "UnexpectedStatementEnd"@,
        DiagnosticKind::AssignmentToUndeclaredName => "AssignmentToUndeclaredName"@,
        DiagnosticKind::DuplicateBinding => "DuplicateBinding"@,
        DiagnosticKind::InvalidReturnContext => "InvalidReturnContext"@,
        DiagnosticKind::RuntimeError => "RuntimeError"@,
    }
}

impl DiagnosticKind {
    /// The kind's name, as its debug form prints it.
    pub fn name(self) -> (r: &'static str)
        ensures
            r@ == diagnostic_kind_name(self),
    {
        match self {
            DiagnosticKind::UnexpectedCharacter => "UnexpectedCharacter",
            DiagnosticKind::UnterminatedString => "UnterminatedString",
            DiagnosticKind::InvalidNumber => "InvalidNumber",
            DiagnosticKind::UnexpectedToken => "UnexpectedToken",
            DiagnosticKind::ExpectedExpression => "ExpectedExpression",
            DiagnosticKind::ExpectedStatement => "ExpectedStatement",
            DiagnosticKind::InvalidAssignmentTarget => "InvalidAssignmentTarget",
            DiagnosticKind::MissingDelimiter => "MissingDelimiter",
            DiagnosticKind::InvalidLambdaParameterList => "InvalidLambdaParameterList",
            DiagnosticKind::UnexpectedStatementEnd => "UnexpectedStatementEnd",
            DiagnosticKind::AssignmentToUndeclaredName => "AssignmentToUndeclaredName",
            DiagnosticKind::DuplicateBinding => "DuplicateBinding",
            DiagnosticKind::InvalidReturnContext => "InvalidReturnContext",
            DiagnosticKind::RuntimeError => "RuntimeError",
        }
    }
}

#[derive(Debug, PartialEq, Eq)]
pub struct Diagnostic {
    pub kind: DiagnosticKind,
    pub span: Span,
    pub message: String,
}

/// A diagnostic with its message as a character sequence.
pub struct DiagnosticView {
    pub kind: DiagnosticKind,
    pub span: Span,
    pub message: Seq<char>,
}

impl View for Diagnostic {
    type V = DiagnosticView;

    open spec fn view(&self) -> DiagnosticView {
        DiagnosticView { kind: self.kind, span: self.span, message: self.message@ }
    }
}

/// The view of a diagnostic built from its parts.
pub open spec fn diag(kind: DiagnosticKind, span: Span, message: Seq<char>) -> DiagnosticView {
    DiagnosticView { kind, span, message }
}

impl Diagnostic {
    pub fn new(kind: DiagnosticKind, span: Span, message: &str) -> (r: Self)
        ensures
            r@ == diag(kind, span, message@),
    {
        Self { kind, span, message: message.to_owned() }
    }

    /// A diagnostic whose message is an already built string.
    pub fn with_message(kind: DiagnosticKind, span: Span, message: String) -> (r: Self)
        ensures
            r@ == diag(kind, span, message@),
    {
        Self { kind, span, message }
    }
}

impl Clone for Diagnostic {
    fn clone(&self) -> (r: Self)
        ensures
            r == *self,
    {
        Diagnostic { kind: self.kind, span: self.span, message: self.message.clone() }
    }
}

/// A copy of a list of diagnostics.
pub fn copy_diagnostics(v: &Vec<Diagnostic>) -> (r: Vec<Diagnostic>)
    ensures
        r@ == v@,
{
    let mut r: Vec<Diagnostic> = Vec::new();
    let mut i: usize = 0;
    while i < v.len()
        invariant
            i <= v@.len(),
            r@ == v@.take(i as int),
        decreases v@.len() - i,
    {
        let d = v[i].clone();
        r.push(d);
        i = i + 1;
        assert(r@ =~= v@.take(i as int));
    }
    assert(v@.take(v@.len() as int) =~= v@);
    r
}

} // verus!
