//! The passes that hold a program to the rules of the language, and the
//! pipeline that runs them in order.

pub mod integer_range;
pub mod no_return_in_main;
pub mod num_range;
pub mod return_exists;
pub mod syntax;
pub mod variable_dec_init_and_usage;

use vstd::prelude::*;
use vstd::string::StringExecFns;
use crate::diagnostics::renders;
use crate::grammar::{Program, StatementView};
use crate::tree::{preorder, ParsedSource};

verus! {

/// A diagnostic rendered as text.
pub type ErrorMsg = String;

/// Whether the body `p` passes every check on the tree: its literals are in
/// range, its variables are declared and initialised in time, and it holds a
/// `return`.
pub open spec fn accepts(p: Seq<StatementView>) -> bool {
    &&& num_range::statements_in_range(p)
    &&& variable_dec_init_and_usage::accepts(p)
    &&& no_return_in_main::has_return(p)
}

/// A pass gives the same on every run: its result is a function of the
/// tree. Any two results that the contract of a pass admits for one verdict
/// on a tree are the same result, so a tree that was accepted once is
/// accepted again.
pub proof fn lemma_result_is_determined(
    verdict: bool,
    first: Result<(), ()>,
    second: Result<(), ()>,
)
    requires
        first is Ok <==> verdict,
        second is Ok <==> verdict,
    ensures
        first == second,
        verdict ==> first == Ok::<(), ()>(()),
{
    match first {
        Ok(u) => assert(u == ()),
        Err(u) => assert(u == ()),
    }
    match second {
        Ok(u) => assert(u == ()),
        Err(u) => assert(u == ()),
    }
}

/// A pass over the syntax tree.
#[derive(Debug, Clone, Copy, PartialEq, Eq)]
pub enum Pass {
    /// The range of the integer literals.
    IntegerRange,
    /// Declaration, initialisation and use of variables.
    Variables,
    /// The presence of a `return`.
    Return,
}

/// The first pass, in their order, that refuses the body `p`.
pub open spec fn first_failure(p: Seq<StatementView>) -> Option<Pass> {
    if !num_range::statements_in_range(p) {
        Some(Pass::IntegerRange)
    } else if !variable_dec_init_and_usage::accepts(p) {
        Some(Pass::Variables)
    } else if !no_return_in_main::has_return(p) {
        Some(Pass::Return)
    } else {
        None
    }
}

/// Runs the passes in their order and stops at the first that fails: the
/// range of the literals, then the use of the variables, then the presence
/// of a `return`. Returns the pass that failed.
pub fn failing_pass<'src>(program: &Program<'src>) -> (r: Option<Pass>)
    ensures
        r == first_failure(program@),
        r is None <==> accepts(program@),
{
    if num_range::analyze(program).is_err() {
        return Some(Pass::IntegerRange);
    }
    if variable_dec_init_and_usage::analyze(program).is_err() {
        return Some(Pass::Variables);
    }
    if no_return_in_main::analyze(program).is_err() {
        return Some(Pass::Return);
    }
    None
}

/// Why the body `p` is refused, in words: what the first pass that
/// refuses it has against it; `None` where `p` is accepted.
pub open spec fn complaint(p: Seq<StatementView>) -> Option<Seq<char>> {
    match first_failure(p) {
        Some(Pass::IntegerRange) => Some("an integer literal is out of range"@),
        Some(Pass::Variables) => match variable_dec_init_and_usage::first_violation(
            p,
            variable_dec_init_and_usage::Scope::empty(),
        ) {
            Some(error) => Some(error.describe()),
            None => None,
        },
        Some(Pass::Return) => Some("the body of `main` holds no `return`"@),
        None => None,
    }
}

/// Runs the passes in their order and says in words what the first that
/// fails has against the program.
pub fn explain<'src>(program: &Program<'src>) -> (r: Option<String>)
    ensures
        r is None <==> accepts(program@),
        match r {
            Some(text) => complaint(program@) == Some(text@),
            None => complaint(program@) is None,
        },
{
    proof {
        variable_dec_init_and_usage::lemma_violation(
            program@,
            variable_dec_init_and_usage::Scope::empty(),
        );
    }
    match failing_pass(program) {
        Some(Pass::IntegerRange) => Some(String::from_str("an integer literal is out of range")),
        Some(Pass::Variables) => match variable_dec_init_and_usage::find_violation(program) {
            Some(error) => Some(error.message()),
            None => None,
        },
        Some(Pass::Return) => Some(String::from_str("the body of `main` holds no `return`")),
        None => None,
    }
}

/// Runs the passes in their order and stops at the first that fails.
pub fn analyze<'src>(program: &Program<'src>) -> (r: Result<(), ()>)
    ensures
        r is Ok <==> accepts(program@),
{
    match failing_pass(program) {
        Some(_) => Err(()),
        None => Ok(()),
    }
}

/// Why a parsed source was refused: the first pass that found something,
/// with what it found.
#[derive(Debug)]
pub enum Rejection {
    Syntax(Vec<syntax::SyntaxError>),
    IntegerRange(Vec<integer_range::InvalidIntegerRange>),
    MissingReturn(Vec<return_exists::MissingReturn>),
}

/// Runs the passes over a parsed source in their order and stops at the
/// first that fails: syntax errors, then the range of the literals, then the
/// presence of a `return`. A tree with syntax errors is looked at by no
/// other pass.
///
/// The failure holds every diagnostic of the pass that failed, rendered.
pub fn analyze_source(source: &ParsedSource) -> (r: Result<(), Rejection>)
    ensures
        match r {
            Ok(_) => {
                &&& syntax::findings(preorder(source.root)).len() == 0
                &&& integer_range::findings(source.text@, preorder(source.root)).len() == 0
                &&& return_exists::has_return(source.text@, preorder(source.root))
            },
            Err(Rejection::Syntax(errors)) => {
                &&& errors@.len() > 0
                &&& renders(
                    syntax::messages(errors@),
                    syntax::findings(preorder(source.root)),
                    source.text@,
                    source.color,
                )
            },
            Err(Rejection::IntegerRange(errors)) => {
                &&& syntax::findings(preorder(source.root)).len() == 0
                &&& errors@.len() > 0
                &&& renders(
                    integer_range::messages(errors@),
                    integer_range::findings(source.text@, preorder(source.root)),
                    source.text@,
                    source.color,
                )
            },
            Err(Rejection::MissingReturn(errors)) => {
                &&& syntax::findings(preorder(source.root)).len() == 0
                &&& integer_range::findings(source.text@, preorder(source.root)).len() == 0
                &&& !return_exists::has_return(source.text@, preorder(source.root))
                &&& renders(
                    return_exists::messages(errors@),
                    seq![return_exists::missing_return()],
                    source.text@,
                    source.color,
                )
            },
        },
{
    match syntax::analyze(source) {
        Ok(_) => {},
        Err(errors) => {
            return Err(Rejection::Syntax(errors));
        },
    }
    match integer_range::analyze(source) {
        Ok(_) => {},
        Err(errors) => {
            return Err(Rejection::IntegerRange(errors));
        },
    }
    match return_exists::analyze(source) {
        Ok(_) => Ok(()),
        Err(errors) => Err(Rejection::MissingReturn(errors)),
    }
}

} // verus!
