//! The range of integer literals, read off a parsed tree.
//!
//! Every node of kind `intconst` is taken with the text that it covers. A
//! text that begins with `0x` or `0X` is a hexadecimal literal and has to
//! fit 32 bits; any other is a decimal literal and has to be a number of at
//! most `2^31`. Every literal that does not gives one diagnostic; none is
//! left out.

use vstd::prelude::*;
use vstd::string::StringExecFns;
use crate::analyzer::num_range::{
    decnum_in_range,
    has_hex_prefix,
    hex_part,
    hexnum_in_range,
    intconst_in_range,
    lemma_number_is_magnitude,
    number,
    parse_u32,
    Radix,
    DECIMAL_MAX,
};
use crate::grammar::IntconstView;
use crate::parser::lexical::{is_decimal_literal, is_hex_literal};
use crate::analyzer::ErrorMsg;
use crate::diagnostics::{render_all, renders, views, Diagnostic, DiagnosticView, Severity};
use crate::source::{same_text, slice_bytes, text_between, Source};
use crate::tree::{nodes, preorder, Node, ParsedSource};

verus! {

/// An integer literal out of range, rendered for the reader.
#[derive(Debug)]
pub struct InvalidIntegerRange(pub ErrorMsg);

/// What the failure of this pass is headed with.
pub const HEADLINE: &'static str = "Noob";

/// The kind of the nodes that this pass looks at.
pub const LITERAL_KIND: &'static str = "intconst";

/// The text that the node `n` covers in `text`; empty where the bytes of
/// `n` are no part of `text`.
pub open spec fn covered(text: Seq<char>, n: Node) -> Seq<char> {
    match text_between(text, n.start as int, n.end as int) {
        Some(t) => t,
        None => Seq::empty(),
    }
}

/// Whether `t` begins like a hexadecimal literal.
pub open spec fn is_hex(t: Seq<char>) -> bool {
    t.len() >= 2 && t[0] == '0' && (t[1] == 'x' || t[1] == 'X')
}

/// What is wrong with the literal `t`, at the place `span`, if anything.
pub open spec fn verdict(t: Seq<char>, span: crate::parser::Span) -> Option<DiagnosticView> {
    let read = if is_hex(t) {
        number(hex_part(t), 16)
    } else {
        number(t, 10)
    };
    match read {
        Ok(v) => if !is_hex(t) && v > DECIMAL_MAX {
            Some(
                DiagnosticView {
                    severity: Severity::Error,
                    span,
                    message: "Invalid integer"@,
                    label: Some("Integer is too high"@),
                },
            )
        } else {
            None
        },
        Err(e) => Some(
            DiagnosticView {
                severity: Severity::Error,
                span,
                message: e.describe(),
                label: Some("Invalid integer"@),
            },
        ),
    }
}

/// This pass and the pass over the syntax tree of the grammar agree on
/// every literal: a text is let through here exactly if it is in the range
/// of its kind there, a hexadecimal literal being one that begins with `0x`
/// or `0X`.
pub proof fn lemma_verdict_is_range(t: Seq<char>, span: crate::parser::Span)
    ensures
        verdict(t, span) is None <==> (if is_hex(t) {
            hexnum_in_range(t)
        } else {
            decnum_in_range(t)
        }),
        is_decimal_literal(t) ==> (verdict(t, span) is None <==> intconst_in_range(
            IntconstView::Decnum(t),
        )),
        is_hex_literal(t) ==> (verdict(t, span) is None <==> intconst_in_range(
            IntconstView::Hexnum(t),
        )),
{
    lemma_number_is_magnitude(t, 10);
    lemma_number_is_magnitude(hex_part(t), 16);
}

/// What this pass has to say about the node `n` of a tree over `text`, if
/// anything.
pub open spec fn finding(text: Seq<char>, n: Node) -> Option<DiagnosticView> {
    if n.kind@ == LITERAL_KIND@ {
        verdict(covered(text, n), n.span())
    } else {
        None
    }
}

/// What this pass has to say about the nodes `ns`, in their order.
pub open spec fn findings(text: Seq<char>, ns: Seq<Node>) -> Seq<DiagnosticView>
    decreases ns.len(),
{
    if ns.len() == 0 {
        Seq::empty()
    } else {
        findings(text, ns.drop_last()) + match finding(text, ns.last()) {
            Some(d) => seq![d],
            None => Seq::empty(),
        }
    }
}

/// The diagnostic for the literal `literal` at `span`, if it is out of
/// range or no number.
pub fn judge(literal: &str, span: crate::parser::Span) -> (r: Option<Diagnostic>)
    ensures
        match r {
            Some(d) => verdict(literal@, span) == Some(d@),
            None => verdict(literal@, span) is None,
        },
{
    let src = Source::new(literal);
    let hex = has_hex_prefix(&src);
    let read = if hex {
        proof {
            assert(src@.subrange(2, src@.len() as int) =~= src@.skip(2));
        }
        parse_u32(src.slice(2, src.len()), Radix::Hexadecimal)
    } else {
        parse_u32(literal, Radix::Decimal)
    };
    match read {
        Ok(num) => {
            if !hex && num > DECIMAL_MAX {
                Some(
                    Diagnostic {
                        severity: Severity::Error,
                        span,
                        message: String::from_str("Invalid integer"),
                        label: Some(String::from_str("Integer is too high")),
                    },
                )
            } else {
                None
            }
        },
        Err(e) => Some(
            Diagnostic {
                severity: Severity::Error,
                span,
                message: String::from_str(e.description()),
                label: Some(String::from_str("Invalid integer")),
            },
        ),
    }
}

/// The diagnostic for the node `node`, if it is a literal out of range.
pub fn examine(text: &str, node: &Node) -> (r: Option<Diagnostic>)
    ensures
        match r {
            Some(d) => finding(text@, *node) == Some(d@) && d.span.start <= d.span.end,
            None => finding(text@, *node) is None,
        },
{
    if !same_text(node.kind.as_str(), LITERAL_KIND) {
        return None;
    }
    let literal = match slice_bytes(text, node.start, node.end) {
        Some(part) => part,
        None => "",
    };
    proof {
        reveal_strlit("");
        assert(""@ =~= Seq::<char>::empty());
    }
    judge(literal, node.byte_range())
}

/// The diagnostics for every literal of the tree that is out of range, in
/// source order.
pub fn collect_errors(source: &ParsedSource) -> (r: Vec<Diagnostic>)
    ensures
        views(r@) == findings(source.text@, preorder(source.root)),
        forall|i: int| 0 <= i < r@.len() ==> (#[trigger] r@[i]).span.start <= r@[i].span.end,
{
    let all = nodes(&source.root);
    let mut reports: Vec<Diagnostic> = Vec::new();
    let ghost order = preorder(source.root);
    assert(order.take(0) =~= Seq::<Node>::empty());
    assert(views(reports@) =~= Seq::<DiagnosticView>::empty());
    let mut k: usize = 0;
    while k < all.len()
        invariant
            k <= all.len(),
            order == preorder(source.root),
            all@.len() == order.len(),
            forall|i: int| 0 <= i < all@.len() ==> *(#[trigger] all@[i]) == order[i],
            views(reports@) == findings(source.text@, order.take(k as int)),
            forall|i: int| 0 <= i < reports@.len() ==> (#[trigger] reports@[i]).span.start
                <= reports@[i].span.end,
        decreases all.len() - k,
    {
        assert(order.take(k + 1).drop_last() =~= order.take(k as int));
        assert(order.take(k + 1).last() == *all@[k as int]);
        let ghost before = views(reports@);
        match examine(source.text.as_str(), all[k]) {
            Some(d) => {
                reports.push(d);
                assert(views(reports@) =~= before + seq![d@]);
            },
            None => {
                assert(before + Seq::<DiagnosticView>::empty() =~= before);
            },
        }
        k = k + 1;
    }
    assert(order.take(k as int) =~= order);
    reports
}

/// The texts that `errors` hold.
pub open spec fn messages(errors: Seq<InvalidIntegerRange>) -> Seq<String> {
    errors.map_values(|e: InvalidIntegerRange| e.0)
}

/// Accepts a tree whose literals are all in range; else returns the
/// diagnostics of [`collect_errors`], rendered one for one.
pub fn analyze(source: &ParsedSource) -> (r: Result<(), Vec<InvalidIntegerRange>>)
    ensures
        match r {
            Ok(_) => findings(source.text@, preorder(source.root)).len() == 0,
            Err(errors) => errors@.len() > 0 && renders(
                messages(errors@),
                findings(source.text@, preorder(source.root)),
                source.text@,
                source.color,
            ),
        },
{
    let reports = collect_errors(source);
    assert(views(reports@).len() == reports@.len());
    if reports.len() == 0 {
        return Ok(());
    }
    let texts = render_all(source.text.as_str(), &reports, source.color);
    let mut errors: Vec<InvalidIntegerRange> = Vec::new();
    let mut k: usize = 0;
    while k < texts.len()
        invariant
            k <= texts.len(),
            messages(errors@) =~= texts@.take(k as int),
        decreases texts.len() - k,
    {
        let ghost before = errors@;
        let text = texts[k].clone();
        errors.push(InvalidIntegerRange(text));
        assert(messages(errors@) =~= messages(before).push(text));
        k = k + 1;
    }
    assert(texts@.take(k as int) =~= texts@);
    Err(errors)
}

} // verus!
