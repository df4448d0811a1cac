//! What a diagnostic tells its reader, as text.

use crate::errors::syntax_err::{
    expected_text, Delimiter, Expected, SyntaxErr, SyntaxErrKind, SyntaxErrView,
};
use crate::syntax::tokens::SourceSpan;
use vstd::prelude::*;
use vstd::string::*;

verus! {

/// A remark on one place of the source text.
#[derive(Debug, PartialEq, Eq)]
pub struct ReportLabel {
    pub span: SourceSpan,
    pub message: String,
}

/// A diagnostic as text: what went wrong, notes that help, and remarks on
/// places of the source text.
#[derive(Debug, PartialEq, Eq)]
pub struct Report {
    pub message: String,
    pub notes: Vec<String>,
    pub labels: Vec<ReportLabel>,
}

/// [`ReportLabel`] as a mathematical value.
pub struct ReportLabelView {
    pub span: SourceSpan,
    pub message: Seq<char>,
}

/// [`Report`] as a mathematical value.
pub struct ReportView {
    pub message: Seq<char>,
    pub notes: Seq<Seq<char>>,
    pub labels: Seq<ReportLabelView>,
}

impl View for ReportLabel {
    type V = ReportLabelView;

    open spec fn view(&self) -> ReportLabelView {
        ReportLabelView { span: self.span, message: self.message@ }
    }
}

impl View for Report {
    type V = ReportView;

    open spec fn view(&self) -> ReportView {
        ReportView {
            message: self.message@,
            notes: self.notes@.map_values(|note: String| note@),
            labels: self.labels@.map_values(|label: ReportLabel| label@),
        }
    }
}

impl Delimiter {
    /// The name of the delimiter.
    pub open spec fn name(self) -> Seq<char> {
        match self {
            Delimiter::Paren => "Paren"@,
            Delimiter::Brace => "Brace"@,
        }
    }
}

/// What went wrong, in words.
pub open spec fn message_of(kind: SyntaxErrKind) -> Seq<char> {
    match kind {
        SyntaxErrKind::UnexpectedToken(found) => "Unexpected "@ + found.debug_text(),
        SyntaxErrKind::UnexpectedEOF => "Unexpected EOF"@,
        SyntaxErrKind::Unclosed(delimiter) => "Unclosed "@ + delimiter.name(),
        SyntaxErrKind::UnexpectedExpr(_) => "Unexpected expression"@,
        SyntaxErrKind::AmbiguousInstructions(op) =>
            "Ambiguity: potentially instruction closer operator "@ + op.text()
            + " after newline at the same level than the previous instruction is not allowed"@,
    }
}

/// The report on the diagnostic `error`: what went wrong; the note, where
/// there is one; and, where something was looked for, a remark at the place
/// of the diagnostic that tells what.
pub open spec fn report_of(error: SyntaxErrView) -> ReportView {
    ReportView {
        message: message_of(error.kind),
        notes: match error.note {
            Some(note) => seq![note@],
            None => Seq::empty(),
        },
        labels: if error.expected is Nothing {
            Seq::empty()
        } else {
            seq![
                ReportLabelView {
                    span: error.span,
                    message: "Expected "@ + expected_text(error.expected),
                },
            ]
        },
    }
}

impl<'a> SyntaxErr<'a> {
    /// The diagnostic as text.
    pub fn report(&self) -> (report: Report)
        ensures
            report@ == report_of(self@),
    {
        let message = match &self.kind {
            SyntaxErrKind::UnexpectedToken(found) => {
                let mut message = String::from_str("Unexpected ");
                message.append(found.debug_string().as_str());
                message
            },
            SyntaxErrKind::UnexpectedEOF => String::from_str("Unexpected EOF"),
            SyntaxErrKind::Unclosed(delimiter) => {
                let mut message = String::from_str("Unclosed ");
                match delimiter {
                    Delimiter::Paren => message.append("Paren"),
                    Delimiter::Brace => message.append("Brace"),
                }
                message
            },
            SyntaxErrKind::UnexpectedExpr(_) => String::from_str("Unexpected expression"),
            SyntaxErrKind::AmbiguousInstructions(op) => {
                let mut message = String::from_str(
                    "Ambiguity: potentially instruction closer operator ",
                );
                message.append(op.to_string().as_str());
                message.append(
                    " after newline at the same level than the previous instruction is not allowed",
                );
                message
            },
        };
        let mut notes: Vec<String> = Vec::new();
        match self.note {
            Some(note) => {
                notes.push(String::from_str(note));
            },
            None => {},
        }
        let mut labels: Vec<ReportLabel> = Vec::new();
        match &self.expected {
            Expected::Nothing => {},
            _ => {
                let mut text = String::from_str("Expected ");
                text.append(self.expected.to_string().as_str());
                labels.push(ReportLabel { span: self.span, message: text });
            },
        }
        let report = Report { message, notes, labels };
        proof {
            assert(report@.notes =~= report_of(self@).notes);
            assert(report@.labels =~= report_of(self@).labels);
        }
        report
    }
}

} // verus!
