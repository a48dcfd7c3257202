//! Diagnostics: what a pass has to say about a place in the source, and the
//! rendering of a diagnostic as text that shows the place.

use vstd::prelude::*;
use ariadne::{Color, Config, Label, Report, ReportKind};
use crate::parser::{ParseError, Span};
use crate::source::{chars_reaching, chars_within, lemma_char_range_is_ordered, Source};

verus! {

/// How grave a diagnostic is.
#[derive(Debug, Clone, Copy, PartialEq, Eq)]
pub enum Severity {
    Error,
    Warning,
    Advice,
}

/// A message about a range of bytes of the source.
#[derive(Debug, Clone, PartialEq, Eq)]
pub struct Diagnostic {
    pub severity: Severity,
    /// The bytes of the source that the diagnostic is about.
    pub span: Span,
    /// What is wrong; may be empty.
    pub message: String,
    /// What is written at the place itself, if the place is shown.
    pub label: Option<String>,
}

/// The view of a [`Diagnostic`].
pub struct DiagnosticView {
    pub severity: Severity,
    pub span: Span,
    pub message: Seq<char>,
    pub label: Option<Seq<char>>,
}

impl View for Diagnostic {
    type V = DiagnosticView;

    open spec fn view(&self) -> DiagnosticView {
        DiagnosticView {
            severity: self.severity,
            span: self.span,
            message: self.message@,
            label: match self.label {
                Some(l) => Some(l@),
                None => None,
            },
        }
    }
}

/// The views of `v`, in order.
pub open spec fn views(v: Seq<Diagnostic>) -> Seq<DiagnosticView> {
    v.map_values(|d: Diagnostic| d@)
}

/// The text that a report about the characters from `start` to `end` of
/// `text` is rendered as without colours: its kind and `message` as a
/// headline and, where there is a `label`, the lines of `text` that hold the
/// characters, with `label` pointing at them.
pub uninterp spec fn rendered(text: Seq<char>, severity: Severity, message: Seq<char>, start: int, end: int, label: Option<Seq<char>>) -> Seq<char>;

/// The text that `d` is rendered as without colours, for the source `text`.
/// The place that is shown holds every character of which the span of `d`
/// holds a byte.
pub open spec fn rendering(text: Seq<char>, d: DiagnosticView) -> Seq<char> {
    rendered(
        text,
        d.severity,
        d.message,
        chars_within(text, d.span.start as int) as int,
        chars_reaching(text, d.span.end as int) as int,
        d.label,
    )
}

/// The length of a text, in characters, from which on no place is shown.
pub const PLACE_LIMIT: usize = 1_000_000_000;

/// Renders `diagnostic` with ariadne: builds a `Report` of the diagnostic's
/// kind over the characters from `start` to `end`, with its message and,
/// where it has a label, one red `Label` over the same characters, and
/// writes the report for the source `text` into a buffer (`Report::write`).
/// Without colours the report is a function of what was handed over, which
/// [`rendered`] names; with colours it also depends on whether the terminal
/// library has colours switched on, so nothing is said of it. Two inputs
/// are not handed over: a range that runs backwards, on which `Label::new`
/// panics, and a text of `10^9` lines or more, whose line numbers the
/// writer cannot measure.
#[verifier::external_body]
fn write_report(text: &str, diagnostic: &Diagnostic, start: usize, end: usize, color: bool) -> (r:
    String)
    requires
        start <= end,
        text@.len() < PLACE_LIMIT,
    ensures
        !color ==> r@ == rendered(
            text@,
            diagnostic.severity,
            diagnostic.message@,
            start as int,
            end as int,
            diagnostic@.label,
        ),
{
    let kind = match diagnostic.severity {
        Severity::Error => ReportKind::Error,
        Severity::Warning => ReportKind::Warning,
        Severity::Advice => ReportKind::Advice,
    };
    let place = Label::new(start..end).with_color(Color::Red);
    let label = diagnostic.label.as_ref().map(|text| place.with_message(text));
    let report = Report::build(kind, start..end).with_config(Config::default().with_color(color));
    let report = report.with_message(&diagnostic.message).with_labels(label).finish();
    let mut buffer = Vec::new();
    report.write(ariadne::Source::from(text), &mut buffer).unwrap();
    String::from_utf8(buffer).unwrap()
}

/// Whether a place can be shown for the span `span` in the source `text`:
/// the span does not run backwards and the text is shorter than
/// [`PLACE_LIMIT`].
pub open spec fn shows_place(text: Seq<char>, span: Span) -> bool {
    span.start <= span.end && text.len() < PLACE_LIMIT
}

/// Renders `diagnostic` for the source `text`, with colour codes if `color`
/// is set.
///
/// A diagnostic for which no place can be shown is rendered as its message
/// alone.
pub fn render(text: &str, diagnostic: &Diagnostic, color: bool) -> (r: String)
    ensures
        !shows_place(text@, diagnostic.span) ==> r@ == diagnostic.message@,
        shows_place(text@, diagnostic.span) && !color ==> r@ == rendering(text@, diagnostic@),
{
    let src = Source::new(text);
    if diagnostic.span.start <= diagnostic.span.end && src.len() < PLACE_LIMIT {
        let start = src.chars_within(diagnostic.span.start);
        let end = src.chars_reaching(diagnostic.span.end);
        proof {
            lemma_char_range_is_ordered(
                text@,
                diagnostic.span.start as int,
                diagnostic.span.end as int,
            );
        }
        write_report(text, diagnostic, start, end, color)
    } else {
        diagnostic.message.clone()
    }
}

/// What the diagnostic `d` is rendered as without colours, for the source
/// `text`: with its place where one can be shown, else its message alone.
pub open spec fn plain(text: Seq<char>, d: DiagnosticView) -> Seq<char> {
    if shows_place(text, d.span) {
        rendering(text, d)
    } else {
        d.message
    }
}

/// Whether the texts `texts` are the renderings of the diagnostics `ds` for
/// the source `text`, one for one. With colours only their number is known.
pub open spec fn renders(texts: Seq<String>, ds: Seq<DiagnosticView>, text: Seq<char>, color: bool)
    -> bool {
    &&& texts.len() == ds.len()
    &&& !color ==> forall|i: int| 0 <= i < ds.len() ==> (#[trigger] texts[i])@ == plain(text, ds[i])
}

/// Renders each of `diagnostics` for the source `text`.
pub fn render_all(text: &str, diagnostics: &Vec<Diagnostic>, color: bool) -> (r: Vec<String>)
    ensures
        renders(r@, views(diagnostics@), text@, color),
{
    let mut texts: Vec<String> = Vec::new();
    let mut k: usize = 0;
    while k < diagnostics.len()
        invariant
            k <= diagnostics.len(),
            texts@.len() == k,
            !color ==> forall|i: int|
                0 <= i < k ==> (#[trigger] texts@[i])@ == plain(text@, views(diagnostics@)[i]),
        decreases diagnostics.len() - k,
    {
        texts.push(render(text, &diagnostics[k], color));
        k = k + 1;
    }
    texts
}

impl ParseError {
    /// The error as a diagnostic: an error at the span, with the
    /// expectation as its message and as its label.
    pub fn diagnostic(&self) -> (r: Diagnostic)
        ensures
            r@ == (DiagnosticView {
                severity: Severity::Error,
                span: self.span,
                message: self.expected.describe(),
                label: Some(self.expected.describe()),
            }),
    {
        Diagnostic {
            severity: Severity::Error,
            span: self.span,
            message: self.message(),
            label: Some(self.message()),
        }
    }
}

} // verus!
