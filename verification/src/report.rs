//! The diagnostics that the checks report, in the shape that editors take
//! them: a range of a document, a severity and a message.

use vstd::prelude::*;

verus! {

/// A place in a document: a line and a column, both counted from zero.
#[derive(Debug, Clone, Copy, PartialEq, Eq)]
pub struct Position {
    pub line: u32,
    pub character: u32,
}

impl Position {
    pub fn new(line: u32, character: u32) -> (r: Position)
        ensures
            r == (Position { line, character }),
    {
        Position { line, character }
    }
}

/// The part of a document from `start` to `end`.
#[derive(Debug, Clone, Copy, PartialEq, Eq)]
pub struct Range {
    pub start: Position,
    pub end: Position,
}

/// How serious a diagnostic is.
#[derive(Debug, Clone, Copy, PartialEq, Eq)]
pub enum DiagnosticSeverity {
    Error,
    Warning,
    Information,
    Hint,
}

/// A finding about a document.
#[derive(Debug, Clone, PartialEq)]
pub struct Diagnostic {
    pub range: Range,
    pub severity: Option<DiagnosticSeverity>,
    pub message: String,
}

/// The mathematical value of a `Diagnostic`: its message as characters.
pub struct DiagnosticView {
    pub range: Range,
    pub severity: Option<DiagnosticSeverity>,
    pub message: Seq<char>,
}

impl View for Diagnostic {
    type V = DiagnosticView;

    open spec fn view(&self) -> DiagnosticView {
        DiagnosticView { range: self.range, severity: self.severity, message: self.message@ }
    }
}

/// The values of a list of diagnostics.
pub open spec fn diagnostics_view(v: Seq<Diagnostic>) -> Seq<DiagnosticView> {
    v.map_values(|d: Diagnostic| d@)
}

/// A diagnostic that spans line `line` from column `from` to column `to`.
pub open spec fn line_diagnostic(
    line: u32,
    from: u32,
    to: u32,
    severity: DiagnosticSeverity,
    message: Seq<char>,
) -> DiagnosticView {
    DiagnosticView {
        range: Range {
            start: Position { line, character: from },
            end: Position { line, character: to },
        },
        severity: Some(severity),
        message,
    }
}

} // verus!
