//! Diagnostics reported by the lexer, the parser, the validator and the
//! include/merge passes.
use vstd::prelude::*;

use crate::text::{decimal, decimal_string, push_char, push_str, join};

verus! {

#[derive(Clone, Copy, Debug, PartialEq, Eq, Structural)]
pub enum Severity {
    Error,
    Warning,
}

#[derive(Clone, Copy, Debug, PartialEq, Eq, Structural)]
pub enum DiagnosticPhase {
    Syntax,
    Semantic,
}

/// A 1-based source position: line and byte column.
#[derive(Clone, Copy, Debug, PartialEq, Eq, Structural)]
pub struct Span {
    pub line: usize,
    pub column: usize,
}

impl Span {
    pub fn new(line: usize, column: usize) -> (s: Self)
        ensures
            s == (Span { line, column }),
    {
        Span { line, column }
    }
}

pub open spec fn span_at(line: int, column: int) -> Span {
    Span { line: line as usize, column: column as usize }
}

#[derive(Clone, Debug)]
pub struct Diagnostic {
    pub phase: DiagnosticPhase,
    pub severity: Severity,
    pub message: String,
    pub span: Option<Span>,
    pub code: Option<&'static str>,
}

/// What a diagnostic says, with its texts as character sequences.
pub ghost struct DiagnosticModel {
    pub phase: DiagnosticPhase,
    pub severity: Severity,
    pub message: Seq<char>,
    pub span: Option<Span>,
    pub code: Option<Seq<char>>,
}

impl View for Diagnostic {
    type V = DiagnosticModel;

    open spec fn view(&self) -> DiagnosticModel {
        DiagnosticModel {
            phase: self.phase,
            severity: self.severity,
            message: self.message@,
            span: self.span,
            code: match self.code {
                Some(c) => Some(c@),
                None => None,
            },
        }
    }
}

/// A syntax error with a code and a span, as the lexer and the parser report them.
pub open spec fn syntax_diag(message: Seq<char>, span: Span, code: Seq<char>) -> DiagnosticModel {
    DiagnosticModel {
        phase: DiagnosticPhase::Syntax,
        severity: Severity::Error,
        message,
        span: Some(span),
        code: Some(code),
    }
}

/// A semantic error with a code, as the validator and the merge pass report them.
pub open spec fn semantic_diag(message: Seq<char>, span: Option<Span>, code: Seq<char>) -> DiagnosticModel {
    DiagnosticModel {
        phase: DiagnosticPhase::Semantic,
        severity: Severity::Error,
        message,
        span,
        code: Some(code),
    }
}

/// The label that opens a rendered diagnostic.
pub open spec fn label_of(phase: DiagnosticPhase, severity: Severity) -> Seq<char> {
    match (phase, severity) {
        (DiagnosticPhase::Syntax, Severity::Error) => "syntax error"@,
        (DiagnosticPhase::Semantic, Severity::Error) => "semantic error"@,
        (DiagnosticPhase::Syntax, Severity::Warning) => "syntax warning"@,
        (DiagnosticPhase::Semantic, Severity::Warning) => "semantic warning"@,
    }
}

/// `{label} at {line}:{column}: [{code}] {message}`, with the position and the
/// code left out where absent.
pub open spec fn render_diag(d: DiagnosticModel) -> Seq<char> {
    let label = label_of(d.phase, d.severity);
    let located = match d.span {
        Some(s) => label + " at "@ + decimal(s.line as nat) + ":"@ + decimal(s.column as nat),
        None => label,
    };
    match d.code {
        Some(c) => located + ": ["@ + c + "] "@ + d.message,
        None => located + ": "@ + d.message,
    }
}

impl Diagnostic {
    pub fn syntax_error(message: String, span: Option<Span>) -> (d: Self)
        ensures
            d@ == (DiagnosticModel {
                phase: DiagnosticPhase::Syntax,
                severity: Severity::Error,
                message: message@,
                span,
                code: None,
            }),
    {
        Diagnostic {
            phase: DiagnosticPhase::Syntax,
            severity: Severity::Error,
            message,
            span,
            code: None,
        }
    }

    pub fn semantic_error(message: String, span: Option<Span>) -> (d: Self)
        ensures
            d@ == (DiagnosticModel {
                phase: DiagnosticPhase::Semantic,
                severity: Severity::Error,
                message: message@,
                span,
                code: None,
            }),
    {
        Diagnostic {
            phase: DiagnosticPhase::Semantic,
            severity: Severity::Error,
            message,
            span,
            code: None,
        }
    }

    pub fn syntax_warning(message: String, span: Option<Span>) -> (d: Self)
        ensures
            d@ == (DiagnosticModel {
                phase: DiagnosticPhase::Syntax,
                severity: Severity::Warning,
                message: message@,
                span,
                code: None,
            }),
    {
        Diagnostic {
            phase: DiagnosticPhase::Syntax,
            severity: Severity::Warning,
            message,
            span,
            code: None,
        }
    }

    pub fn semantic_warning(message: String, span: Option<Span>) -> (d: Self)
        ensures
            d@ == (DiagnosticModel {
                phase: DiagnosticPhase::Semantic,
                severity: Severity::Warning,
                message: message@,
                span,
                code: None,
            }),
    {
        Diagnostic {
            phase: DiagnosticPhase::Semantic,
            severity: Severity::Warning,
            message,
            span,
            code: None,
        }
    }

    pub fn with_code(self, code: &'static str) -> (d: Self)
        ensures
            d@ == (DiagnosticModel { code: Some(code@), ..self@ }),
    {
        let mut d = self;
        d.code = Some(code);
        d
    }

    /// The human-readable rendering: `syntax error at 2:1: [E013] ...`.
    pub fn to_string(&self) -> (r: String)
        ensures
            r@ == render_diag(self@),
    {
        let mut r = String::new();
        match (self.phase, self.severity) {
            (DiagnosticPhase::Syntax, Severity::Error) => push_str(&mut r, "syntax error"),
            (DiagnosticPhase::Semantic, Severity::Error) => push_str(&mut r, "semantic error"),
            (DiagnosticPhase::Syntax, Severity::Warning) => push_str(&mut r, "syntax warning"),
            (DiagnosticPhase::Semantic, Severity::Warning) => push_str(&mut r, "semantic warning"),
        }
        match self.span {
            Some(s) => {
                push_str(&mut r, " at ");
                let line = decimal_string(s.line as u128);
                push_str(&mut r, line.as_str());
                push_char(&mut r, ':');
                let column = decimal_string(s.column as u128);
                push_str(&mut r, column.as_str());
            },
            None => {},
        }
        match self.code {
            Some(c) => {
                push_str(&mut r, ": [");
                push_str(&mut r, c);
                push_str(&mut r, "] ");
            },
            None => {
                push_str(&mut r, ": ");
            },
        }
        push_str(&mut r, self.message.as_str());
        proof {
            assert(":"@ == seq![':']) by {
                reveal_strlit(":");
            }
        }
        r
    }
}

/// An ordered collection of diagnostics.
#[derive(Clone, Debug)]
pub struct DiagnosticBag {
    diagnostics: Vec<Diagnostic>,
}

impl View for DiagnosticBag {
    type V = Seq<DiagnosticModel>;

    closed spec fn view(&self) -> Seq<DiagnosticModel> {
        self.diagnostics@.map_values(|d: Diagnostic| d@)
    }
}

/// Whether a sequence of diagnostics holds an error.
pub open spec fn has_error(ds: Seq<DiagnosticModel>) -> bool {
    exists|i: int| 0 <= i < ds.len() && ds[i].severity == Severity::Error
}

/// The number of errors among `ds`.
pub open spec fn error_total(ds: Seq<DiagnosticModel>) -> nat
    decreases ds.len(),
{
    if ds.len() == 0 {
        0
    } else {
        error_total(ds.drop_last()) + if ds.last().severity == Severity::Error {
            1nat
        } else {
            0nat
        }
    }
}

proof fn lemma_error_total_bound(ds: Seq<DiagnosticModel>)
    ensures
        error_total(ds) <= ds.len(),
    decreases ds.len(),
{
    if ds.len() > 0 {
        lemma_error_total_bound(ds.drop_last());
    }
}

impl DiagnosticBag {
    pub fn new() -> (b: Self)
        ensures
            b@ == Seq::<DiagnosticModel>::empty(),
    {
        let b = DiagnosticBag { diagnostics: Vec::new() };
        assert(b@ =~= Seq::<DiagnosticModel>::empty());
        b
    }

    pub fn push(&mut self, diagnostic: Diagnostic)
        ensures
            final(self)@ == old(self)@.push(diagnostic@),
    {
        self.diagnostics.push(diagnostic);
        assert(self@ =~= old(self)@.push(diagnostic@));
    }

    pub fn syntax_error(&mut self, message: String, span: Option<Span>)
        ensures
            final(self)@ == old(self)@.push(
                DiagnosticModel {
                    phase: DiagnosticPhase::Syntax,
                    severity: Severity::Error,
                    message: message@,
                    span,
                    code: None,
                },
            ),
    {
        self.push(Diagnostic::syntax_error(message, span));
    }

    pub fn semantic_error(&mut self, message: String, span: Option<Span>)
        ensures
            final(self)@ == old(self)@.push(
                DiagnosticModel {
                    phase: DiagnosticPhase::Semantic,
                    severity: Severity::Error,
                    message: message@,
                    span,
                    code: None,
                },
            ),
    {
        self.push(Diagnostic::semantic_error(message, span));
    }

    pub fn syntax_warning(&mut self, message: String, span: Option<Span>)
        ensures
            final(self)@ == old(self)@.push(
                DiagnosticModel {
                    phase: DiagnosticPhase::Syntax,
                    severity: Severity::Warning,
                    message: message@,
                    span,
                    code: None,
                },
            ),
    {
        self.push(Diagnostic::syntax_warning(message, span));
    }

    pub fn semantic_warning(&mut self, message: String, span: Option<Span>)
        ensures
            final(self)@ == old(self)@.push(
                DiagnosticModel {
                    phase: DiagnosticPhase::Semantic,
                    severity: Severity::Warning,
                    message: message@,
                    span,
                    code: None,
                },
            ),
    {
        self.push(Diagnostic::semantic_warning(message, span));
    }

    pub fn extend(&mut self, other: Self)
        ensures
            final(self)@ == old(self)@ + other@,
    {
        let ghost added = other@;
        let mut other = other;
        self.diagnostics.append(&mut other.diagnostics);
        assert(self@ =~= old(self)@ + added);
    }

    pub fn has_errors(&self) -> (b: bool)
        ensures
            b == has_error(self@),
    {
        let mut i: usize = 0;
        while i < self.diagnostics.len()
            invariant
                i <= self.diagnostics@.len(),
                forall|j: int| 0 <= j < i ==> self@[j].severity != Severity::Error,
            decreases self.diagnostics@.len() - i,
        {
            if self.diagnostics[i].severity == Severity::Error {
                assert(self@[i as int].severity == Severity::Error);
                return true;
            }
            i += 1;
        }
        false
    }

    /// The number of errors; warnings are not counted.
    pub fn error_count(&self) -> (n: usize)
        ensures
            n == error_total(self@),
    {
        let mut n: usize = 0;
        let mut i: usize = 0;
        while i < self.diagnostics.len()
            invariant
                i <= self.diagnostics@.len(),
                n == error_total(self@.take(i as int)),
            decreases self.diagnostics@.len() - i,
        {
            assert(self@.take(i + 1).drop_last() =~= self@.take(i as int));
            proof {
                lemma_error_total_bound(self@.take(i as int));
            }
            if self.diagnostics[i].severity == Severity::Error {
                n += 1;
            }
            i += 1;
        }
        assert(self@.take(self@.len() as int) =~= self@);
        n
    }

    pub fn is_empty(&self) -> (b: bool)
        ensures
            b == (self@.len() == 0),
    {
        self.diagnostics.len() == 0
    }

    /// The number of diagnostics.
    pub fn len(&self) -> (n: usize)
        ensures
            n == self@.len(),
    {
        self.diagnostics.len()
    }

    /// The diagnostic at `index`.
    pub fn get(&self, index: usize) -> (d: &Diagnostic)
        requires
            index < self@.len(),
        ensures
            d@ == self@[index as int],
    {
        &self.diagnostics[index]
    }

    /// The diagnostics, in the order they were reported.
    pub fn iter(&self) -> (it: std::slice::Iter<'_, Diagnostic>)
        ensures
            vstd::std_specs::slice::into_iter_elts(it).map_values(|d: Diagnostic| d@) == self@,
    {
        broadcast use vstd::std_specs::slice::axiom_spec_slice_iter;

        let it = self.diagnostics.iter();
        assert(vstd::std_specs::slice::into_iter_elts(it) == self.diagnostics@);
        it
    }

    /// Every diagnostic rendered on a line of its own.
    pub fn to_string(&self) -> (r: String)
        ensures
            r@ == join(self@.map_values(|d: DiagnosticModel| render_diag(d)), "\n"@),
    {
        let ghost rendered = self@.map_values(|d: DiagnosticModel| render_diag(d));
        let mut r = String::new();
        let mut i: usize = 0;
        while i < self.diagnostics.len()
            invariant
                i <= self.diagnostics@.len(),
                rendered == self@.map_values(|d: DiagnosticModel| render_diag(d)),
                rendered.len() == self.diagnostics@.len(),
                r@ == join(rendered.take(i as int), "\n"@),
            decreases self.diagnostics@.len() - i,
        {
            assert(rendered.take(i + 1).drop_last() =~= rendered.take(i as int));
            if i > 0 {
                push_str(&mut r, "\n");
            } else {
                assert(rendered.take(1) =~= seq![rendered[0]]);
            }
            let line = self.diagnostics[i].to_string();
            push_str(&mut r, line.as_str());
            i += 1;
        }
        assert(rendered.take(self.diagnostics@.len() as int) =~= rendered);
        r
    }
}

/// A bag that holds one syntax error.
pub fn single_error(message: String, span: Span, code: &'static str) -> (b: DiagnosticBag)
    ensures
        b@ == seq![syntax_diag(message@, span, code@)],
{
    let mut b = DiagnosticBag::new();
    b.push(Diagnostic::syntax_error(message, Some(span)).with_code(code));
    assert(b@ =~= seq![syntax_diag(message@, span, code@)]);
    b
}

/// A bag that holds the given diagnostics.
pub fn bag_of(diagnostics: Vec<Diagnostic>) -> (b: DiagnosticBag)
    ensures
        b@ == diagnostics@.map_values(|d: Diagnostic| d@),
{
    DiagnosticBag { diagnostics }
}

} // verus!
