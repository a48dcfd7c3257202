//! The presence of a `return`, read off a parsed tree.
//!
//! The tree has to hold a node of kind `statement` whose text begins with
//! `return`, wherever it stands. A tree that holds none gives one
//! diagnostic, at the first byte of the source.

use vstd::prelude::*;
use vstd::string::StringExecFns;
use crate::analyzer::ErrorMsg;
use crate::diagnostics::{render_all, renders, views, Diagnostic, DiagnosticView, Severity};
use crate::parser::lexical::spells;
use crate::parser::Span;
use crate::source::{same_text, slice_bytes, text_between, Source};
use crate::tree::{nodes, preorder, Node, ParsedSource};

verus! {

/// A missing `return`, rendered for the reader.
#[derive(Debug)]
pub struct MissingReturn(ErrorMsg);

impl MissingReturn {
    /// The rendered diagnostic.
    pub closed spec fn text(self) -> String {
        self.0
    }

    /// The error that holds the rendered diagnostic `text`.
    pub fn new(text: ErrorMsg) -> (r: Self)
        ensures
            r.text() == text,
    {
        MissingReturn(text)
    }

    /// The rendered diagnostic.
    pub fn message(&self) -> (r: &String)
        ensures
            *r == self.text(),
    {
        &self.0
    }
}

/// What the failure of this pass is headed with.
pub const HEADLINE: &'static str = "Invalid program";

/// The kind of the nodes that this pass looks at.
pub const STATEMENT_KIND: &'static str = "statement";

/// Whether the node `n` of a tree over `text` is a `return` statement.
pub open spec fn is_return(text: Seq<char>, n: Node) -> bool {
    &&& n.kind@ == STATEMENT_KIND@
    &&& text_between(text, n.start as int, n.end as int) matches Some(t)
    &&& t.len() >= 6
    &&& t.take(6) == "return"@
}

/// Whether one of the nodes `ns` is a `return` statement.
pub open spec fn has_return(text: Seq<char>, ns: Seq<Node>) -> bool {
    exists|k: int| 0 <= k < ns.len() && is_return(text, #[trigger] ns[k])
}

/// The diagnostic for a tree without a `return`.
pub open spec fn missing_return() -> DiagnosticView {
    DiagnosticView {
        severity: Severity::Error,
        span: Span { start: 0, end: 1 },
        message: "Missing `return` statement!"@,
        label: None,
    }
}

/// What this pass has to say about a tree over `text` with the nodes `ns`.
pub open spec fn findings(text: Seq<char>, ns: Seq<Node>) -> Seq<DiagnosticView> {
    if has_return(text, ns) {
        Seq::empty()
    } else {
        seq![missing_return()]
    }
}

/// Whether `node` is a `return` statement.
pub fn examine(text: &str, node: &Node) -> (r: bool)
    ensures
        r == is_return(text@, *node),
{
    if !same_text(node.kind.as_str(), STATEMENT_KIND) {
        return false;
    }
    match slice_bytes(text, node.start, node.end) {
        Some(part) => {
            let src = Source::new(part);
            proof {
                reveal_strlit("return");
                assert(part@.take(6) =~= part@.subrange(0, 6));
            }
            src.len() >= 6 && spells(&src, 0, 6, "return")
        },
        None => false,
    }
}

/// The diagnostic for a missing `return`, if the tree holds none.
pub fn collect_errors(source: &ParsedSource) -> (r: Vec<Diagnostic>)
    ensures
        views(r@) == findings(source.text@, preorder(source.root)),
        forall|i: int| 0 <= i < r@.len() ==> (#[trigger] r@[i]).span.start <= r@[i].span.end,
{
    let all = nodes(&source.root);
    let ghost order = preorder(source.root);
    let mut has_return_statement = false;
    let mut k: usize = 0;
    while k < all.len()
        invariant
            k <= all.len(),
            order == preorder(source.root),
            all@.len() == order.len(),
            forall|i: int| 0 <= i < all@.len() ==> *(#[trigger] all@[i]) == order[i],
            has_return_statement == has_return(source.text@, order.take(k as int)),
        decreases all.len() - k,
    {
        let here = examine(source.text.as_str(), all[k]);
        proof {
            let front = order.take(k as int);
            let more = order.take(k + 1);
            assert(more[k as int] == *all@[k as int]);
            if has_return(source.text@, front) {
                let i = choose|i: int| 0 <= i < front.len() && is_return(source.text@, front[i]);
                assert(more[i] == front[i]);
            }
            if has_return(source.text@, more) && !here {
                let i = choose|i: int| 0 <= i < more.len() && is_return(source.text@, more[i]);
                assert(front[i] == more[i]);
            }
        }
        if here {
            has_return_statement = true;
        }
        k = k + 1;
    }
    assert(order.take(k as int) =~= order);
    let mut reports: Vec<Diagnostic> = Vec::new();
    if !has_return_statement {
        let report = Diagnostic {
            severity: Severity::Error,
            span: Span { start: 0, end: 1 },
            message: String::from_str("Missing `return` statement!"),
            label: None,
        };
        reports.push(report);
        assert(views(reports@) =~= seq![missing_return()]);
    } else {
        assert(views(reports@) =~= Seq::<DiagnosticView>::empty());
    }
    reports
}

/// The texts that `errors` hold.
pub open spec fn messages(errors: Seq<MissingReturn>) -> Seq<String> {
    errors.map_values(|e: MissingReturn| e.text())
}

/// Accepts a tree that holds a `return` statement; else returns the
/// diagnostic of [`collect_errors`], rendered.
pub fn analyze(source: &ParsedSource) -> (r: Result<(), Vec<MissingReturn>>)
    ensures
        match r {
            Ok(_) => has_return(source.text@, preorder(source.root)),
            Err(errors) => !has_return(source.text@, preorder(source.root)) && renders(
                messages(errors@),
                seq![missing_return()],
                source.text@,
                source.color,
            ),
        },
{
    let reports = collect_errors(source);
    assert(views(reports@).len() == reports@.len());
    if reports.len() == 0 {
        return Ok(());
    }
    let texts = render_all(source.text.as_str(), &reports, source.color);
    let mut errors: Vec<MissingReturn> = Vec::new();
    let mut k: usize = 0;
    while k < texts.len()
        invariant
            k <= texts.len(),
            messages(errors@) =~= texts@.take(k as int),
        decreases texts.len() - k,
    {
        let ghost before = errors@;
        let text = texts[k].clone();
        errors.push(MissingReturn::new(text));
        assert(messages(errors@) =~= messages(before).push(text));
        k = k + 1;
    }
    assert(texts@.take(k as int) =~= texts@);
    Err(errors)
}

} // verus!
