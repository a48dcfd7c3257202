//! Syntax errors, read off a parsed tree.
//!
//! The tree is walked once, a node in front of its parts. Every node that is
//! marked as an error and every node that is marked as missing gives one
//! diagnostic at its place. A tree that gives any is rejected; this pass
//! comes first, and the others take a tree that passed it.

use vstd::prelude::*;
use vstd::string::StringExecFns;
use crate::analyzer::ErrorMsg;
use crate::diagnostics::{render_all, renders, views, Diagnostic, DiagnosticView, Severity};
use crate::tree::{nodes, preorder, Node, ParsedSource};

verus! {

/// A syntax error, rendered for the reader.
#[derive(Debug)]
pub struct SyntaxError(pub ErrorMsg);

/// What the failure of this pass is headed with.
pub const HEADLINE: &'static str = "Skill issue";

/// What this pass has to say about the node `n`, if anything.
pub open spec fn finding(n: Node) -> Option<DiagnosticView> {
    if n.is_error {
        Some(
            DiagnosticView {
                severity: Severity::Error,
                span: n.span(),
                message: "Syntax error"@,
                label: Some("sus"@),
            },
        )
    } else if n.is_missing {
        Some(
            DiagnosticView {
                severity: Severity::Error,
                span: n.span(),
                message: Seq::empty(),
                label: Some("'"@ + n.kind@ + "' is missing"@),
            },
        )
    } else {
        None
    }
}

/// What this pass has to say about the nodes `ns`, in their order.
pub open spec fn findings(ns: Seq<Node>) -> Seq<DiagnosticView>
    decreases ns.len(),
{
    if ns.len() == 0 {
        Seq::empty()
    } else {
        findings(ns.drop_last()) + match finding(ns.last()) {
            Some(d) => seq![d],
            None => Seq::empty(),
        }
    }
}

/// The diagnostic for the node `node`, if it is an error or missing.
pub fn examine(node: &Node) -> (r: Option<Diagnostic>)
    ensures
        match r {
            Some(d) => finding(*node) == Some(d@) && d.span.start <= d.span.end,
            None => finding(*node) is None,
        },
{
    if node.is_error {
        Some(
            Diagnostic {
                severity: Severity::Error,
                span: node.byte_range(),
                message: String::from_str("Syntax error"),
                label: Some(String::from_str("sus")),
            },
        )
    } else if node.is_missing {
        let label = String::from_str("'").concat(node.kind.as_str()).concat("' is missing");
        Some(
            Diagnostic {
                severity: Severity::Error,
                span: node.byte_range(),
                message: String::new(),
                label: Some(label),
            },
        )
    } else {
        None
    }
}

/// The diagnostics for every error node and every missing node of the
/// tree, in the order of a walk that takes a node in front of its parts.
pub fn collect_errors(source: &ParsedSource) -> (r: Vec<Diagnostic>)
    ensures
        views(r@) == findings(preorder(source.root)),
        forall|i: int| 0 <= i < r@.len() ==> (#[trigger] r@[i]).span.start <= r@[i].span.end,
{
    let all = nodes(&source.root);
    let mut reports: Vec<Diagnostic> = Vec::new();
    let ghost order = preorder(source.root);
    assert(order.take(0) =~= Seq::<Node>::empty());
    assert(views(reports@) =~= Seq::<DiagnosticView>::empty());
    let mut k: usize = 0;
    while k < all.len()
        invariant
            k <= all.len(),
            order == preorder(source.root),
            all@.len() == order.len(),
            forall|i: int| 0 <= i < all@.len() ==> *(#[trigger] all@[i]) == order[i],
            views(reports@) == findings(order.take(k as int)),
            forall|i: int| 0 <= i < reports@.len() ==> (#[trigger] reports@[i]).span.start
                <= reports@[i].span.end,
        decreases all.len() - k,
    {
        assert(order.take(k + 1).drop_last() =~= order.take(k as int));
        assert(order.take(k + 1).last() == *all@[k as int]);
        let ghost before = views(reports@);
        match examine(all[k]) {
            Some(d) => {
                reports.push(d);
                assert(views(reports@) =~= before + seq![d@]);
            },
            None => {
                assert(before + Seq::<DiagnosticView>::empty() =~= before);
            },
        }
        k = k + 1;
    }
    assert(order.take(k as int) =~= order);
    reports
}

/// The texts that `errors` hold.
pub open spec fn messages(errors: Seq<SyntaxError>) -> Seq<String> {
    errors.map_values(|e: SyntaxError| e.0)
}

/// Accepts a tree without error nodes and missing nodes; else returns the
/// diagnostics of [`collect_errors`], rendered one for one.
pub fn analyze(source: &ParsedSource) -> (r: Result<(), Vec<SyntaxError>>)
    ensures
        match r {
            Ok(_) => findings(preorder(source.root)).len() == 0,
            Err(errors) => errors@.len() > 0 && renders(
                messages(errors@),
                findings(preorder(source.root)),
                source.text@,
                source.color,
            ),
        },
{
    let reports = collect_errors(source);
    assert(views(reports@).len() == reports@.len());
    if reports.len() == 0 {
        return Ok(());
    }
    let texts = render_all(source.text.as_str(), &reports, source.color);
    let mut errors: Vec<SyntaxError> = Vec::new();
    let mut k: usize = 0;
    while k < texts.len()
        invariant
            k <= texts.len(),
            messages(errors@) =~= texts@.take(k as int),
        decreases texts.len() - k,
    {
        let ghost before = errors@;
        let text = texts[k].clone();
        errors.push(SyntaxError(text));
        assert(messages(errors@) =~= messages(before).push(text));
        k = k + 1;
    }
    assert(texts@.take(k as int) =~= texts@);
    Err(errors)
}

} // verus!
